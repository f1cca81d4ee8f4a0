//! Pieces, their orientations under the symmetries of the square, and the
//! reduction of a tiling puzzle to an exact cover matrix.
use crate::nodes::{covers_column_once, is_exact_cover, matrix_view, owner_bits, Node};
use vstd::arithmetic::div_mod::lemma_fundamental_div_mod_converse;
use vstd::prelude::*;

verus! {

/// A rectangular grid with at least one row and one column.
pub open spec fn is_grid(g: Seq<Seq<bool>>) -> bool {
    &&& g.len() > 0
    &&& g[0].len() > 0
    &&& forall|i: int| 0 <= i < g.len() ==> (#[trigger] g[i]).len() == g[0].len()
}

/// The grid turned a quarter clockwise: `rotated(g)[a][b] == g[h - 1 - b][a]`.
pub open spec fn rotated(g: Seq<Seq<bool>>) -> Seq<Seq<bool>> {
    Seq::new(g[0].len(), |a: int| Seq::new(g.len(), |b: int| g[g.len() - 1 - b][a]))
}

/// The grid with its rows in reverse order.
pub open spec fn flipped(g: Seq<Seq<bool>>) -> Seq<Seq<bool>> {
    g.reverse()
}

/// The grid turned `k` quarters clockwise.
pub open spec fn rotated_n(g: Seq<Seq<bool>>, k: nat) -> Seq<Seq<bool>>
    decreases k,
{
    if k == 0 {
        g
    } else {
        rotated(rotated_n(g, (k - 1) as nat))
    }
}

/// The eight images of `g` under the symmetries of the square: `k` quarter turns for
/// `k < 4`, and `k - 4` quarter turns of the flipped grid for `4 <= k < 8`.
pub open spec fn orientation(g: Seq<Seq<bool>>, k: int) -> Seq<Seq<bool>> {
    if k < 4 {
        rotated_n(g, k as nat)
    } else {
        rotated_n(flipped(g), (k - 4) as nat)
    }
}

/// `o` is one of the orientations of `g`.
pub open spec fn is_orientation_of(g: Seq<Seq<bool>>, o: Seq<Seq<bool>>) -> bool {
    exists|k: int| 0 <= k < 8 && orientation(g, k) == o
}

proof fn lemma_rotated_grid(g: Seq<Seq<bool>>)
    requires
        is_grid(g),
    ensures
        is_grid(rotated(g)),
        rotated(g).len() == g[0].len(),
        rotated(g)[0].len() == g.len(),
{
}

/// Unicode white space (the characters of the `White_Space` property).
pub open spec fn is_space(c: char) -> bool {
    let x = c as u32;
    (9 <= x <= 13) || x == 32 || x == 0x85 || x == 0xa0 || x == 0x1680 || (0x2000 <= x <= 0x200a)
        || x == 0x2028 || x == 0x2029 || x == 0x202f || x == 0x205f || x == 0x3000
}

/// `s` without its leading white space.
pub open spec fn trim_start(s: Seq<char>) -> Seq<char>
    decreases s.len(),
{
    if s.len() > 0 && is_space(s[0]) {
        trim_start(s.drop_first())
    } else {
        s
    }
}

/// `s` without its trailing white space.
pub open spec fn trim_end(s: Seq<char>) -> Seq<char>
    decreases s.len(),
{
    if s.len() > 0 && is_space(s.last()) {
        trim_end(s.drop_last())
    } else {
        s
    }
}

/// `s` without leading and trailing white space.
pub open spec fn trim(s: Seq<char>) -> Seq<char> {
    trim_end(trim_start(s))
}

/// The pieces of `s` between line feeds; a string without one is a single line.
pub open spec fn split_lines(s: Seq<char>) -> Seq<Seq<char>>
    decreases s.len(),
{
    if s.len() == 0 {
        seq![seq![]]
    } else {
        let pre = split_lines(s.drop_last());
        if s.last() == '\n' {
            pre.push(seq![])
        } else {
            pre.update(pre.len() - 1, pre.last().push(s.last()))
        }
    }
}

/// The cells of one line of a piece: the trimmed line, `.` empty, anything else filled.
pub open spec fn cells(line: Seq<char>) -> Seq<bool> {
    trim(line).map_values(|c: char| c != '.')
}

/// The rows that a piece string describes: the trimmed string's lines, as cells.
pub open spec fn parse_grid(s: Seq<char>) -> Seq<Seq<bool>> {
    split_lines(trim(s)).map_values(|l: Seq<char>| cells(l))
}

/// Why a piece string describes no piece.
#[derive(Clone, Copy, PartialEq, Eq, Debug)]
pub enum PieceError {
    Empty,
    Ragged,
}

/// The error a piece string is rejected with, if any.
pub open spec fn piece_error(s: Seq<char>) -> Option<PieceError> {
    if trim(s).len() == 0 {
        Some(PieceError::Empty)
    } else if !is_grid(parse_grid(s)) {
        Some(PieceError::Ragged)
    } else {
        None
    }
}

fn is_white_space(c: char) -> (r: bool)
    ensures
        r == is_space(c),
{
    let x = c as u32;
    (9 <= x && x <= 13) || x == 32 || x == 0x85 || x == 0xa0 || x == 0x1680 || (0x2000 <= x && x <= 0x200a)
        || x == 0x2028 || x == 0x2029 || x == 0x202f || x == 0x205f || x == 0x3000
}

fn chars_of(s: &str) -> (r: Vec<char>)
    ensures
        r@ == s@,
{
    let n = s.unicode_len();
    let mut r: Vec<char> = Vec::new();
    let mut i: usize = 0;
    while i < n
        invariant
            n == s@.len(),
            i <= n,
            r@ == s@.subrange(0, i as int),
        decreases n - i,
    {
        r.push(s.get_char(i));
        i = i + 1;
        assert(r@ =~= s@.subrange(0, i as int));
    }
    assert(r@ =~= s@);
    r
}

/// The bounds of `cs[lo..hi]` with white space trimmed off both ends.
fn trim_bounds(cs: &Vec<char>, lo: usize, hi: usize) -> (r: (usize, usize))
    requires
        lo <= hi <= cs.len(),
    ensures
        lo <= r.0 <= r.1 <= hi,
        cs@.subrange(r.0 as int, r.1 as int) == trim(cs@.subrange(lo as int, hi as int)),
{
    let mut a = lo;
    while a < hi && is_white_space(cs[a])
        invariant
            lo <= a <= hi <= cs.len(),
            trim_start(cs@.subrange(lo as int, hi as int)) == trim_start(cs@.subrange(a as int, hi as int)),
        decreases hi - a,
    {
        assert(cs@.subrange(a as int, hi as int).drop_first() =~= cs@.subrange(a + 1, hi as int));
        a = a + 1;
    }
    let mut b = hi;
    while b > a && is_white_space(cs[b - 1])
        invariant
            lo <= a <= b <= hi <= cs.len(),
            trim_end(cs@.subrange(a as int, hi as int)) == trim_end(cs@.subrange(a as int, b as int)),
        decreases b - a,
    {
        assert(cs@.subrange(a as int, b as int).drop_last() =~= cs@.subrange(a as int, b - 1));
        b = b - 1;
    }
    (a, b)
}

/// The cells of the line `cs[lo..hi]`.
fn cells_of(cs: &Vec<char>, lo: usize, hi: usize) -> (r: Vec<bool>)
    requires
        lo <= hi <= cs.len(),
    ensures
        r@ == cells(cs@.subrange(lo as int, hi as int)),
{
    let (a, b) = trim_bounds(cs, lo, hi);
    let ghost t = cs@.subrange(a as int, b as int);
    let mut r: Vec<bool> = Vec::new();
    let mut i = a;
    while i < b
        invariant
            a <= i <= b <= cs.len(),
            t == cs@.subrange(a as int, b as int),
            r@ == t.subrange(0, i - a).map_values(|c: char| c != '.'),
        decreases b - i,
    {
        r.push(cs[i] != '.');
        i = i + 1;
        assert(r@ =~= t.subrange(0, i - a).map_values(|c: char| c != '.'));
    }
    assert(t.subrange(0, b - a) =~= t);
    r
}

/// Some piece of `list` has the cells `g`.
pub open spec fn lists_grid(list: Seq<Block2D>, g: Seq<Seq<bool>>) -> bool {
    exists|i: int| 0 <= i < list.len() && (#[trigger] list[i]).grid() == g
}

/// A piece: `h` rows of `w` cells, `true` where the piece is filled.
#[derive(Debug)]
pub struct Block2D {
    pub w: usize,
    pub h: usize,
    pub data: Vec<Vec<bool>>,
}

impl Block2D {
    /// The cells as a grid of rows.
    pub open spec fn grid(&self) -> Seq<Seq<bool>> {
        matrix_view(&self.data)
    }

    /// The dimensions agree with the cells, and the piece is not empty.
    pub open spec fn wf(&self) -> bool {
        &&& is_grid(self.grid())
        &&& self.h == self.grid().len()
        &&& self.w == self.grid()[0].len()
    }

    /// Read a piece: the string is trimmed, split at line feeds, and each line
    /// trimmed; `.` is an empty cell and any other character a filled one.
    pub fn from_string(s: &str) -> (r: Result<Block2D, PieceError>)
        ensures
            r matches Ok(_) <==> piece_error(s@).is_none(),
            forall|e: PieceError| r == Err::<Block2D, PieceError>(e) ==> piece_error(s@) == Some(e),
            forall|b: Block2D| r == Ok::<Block2D, PieceError>(b) ==> b.wf() && b.grid() == parse_grid(s@),
    {
        let cs = chars_of(s);
        let (a, b) = trim_bounds(&cs, 0, cs.len());
        assert(cs@.subrange(0, cs.len() as int) =~= s@);
        let ghost t = cs@.subrange(a as int, b as int);
        if a == b {
            return Err(PieceError::Empty);
        }
        let mut rows: Vec<Vec<bool>> = Vec::new();
        let ghost mut done: Seq<Seq<char>> = seq![];
        let mut start = a;
        let mut i = a;
        assert(t.subrange(0, 0) =~= seq![]);
        assert(cs@.subrange(a as int, a as int) =~= seq![]);
        while i < b
            invariant
                a <= start <= i <= b <= cs.len(),
                t == cs@.subrange(a as int, b as int),
                split_lines(cs@.subrange(a as int, i as int)) == done.push(cs@.subrange(start as int, i as int)),
                matrix_view(&rows) == done.map_values(|l: Seq<char>| cells(l)),
            decreases b - i,
        {
            let ghost sub = cs@.subrange(a as int, i + 1);
            assert(sub.drop_last() =~= cs@.subrange(a as int, i as int));
            assert(sub.last() == cs@[i as int]);
            if cs[i] == '\n' {
                let row = cells_of(&cs, start, i);
                let ghost old_view = matrix_view(&rows);
                let ghost old_done = done;
                proof {
                    done = done.push(cs@.subrange(start as int, i as int));
                }
                rows.push(row);
                assert(matrix_view(&rows) =~= old_view.push(row@));
                assert(done.map_values(|l: Seq<char>| cells(l)) =~= old_done.map_values(|l: Seq<char>| cells(l)).push(row@));
                start = i + 1;
                assert(cs@.subrange(start as int, i + 1) =~= seq![]);
            } else {
                assert(cs@.subrange(start as int, i as int).push(cs@[i as int]) =~= cs@.subrange(start as int, i + 1));
                assert(done.push(cs@.subrange(start as int, i as int)).update(done.len() as int, cs@.subrange(start as int, i + 1))
                    =~= done.push(cs@.subrange(start as int, i + 1)));
            }
            i = i + 1;
        }
        let row = cells_of(&cs, start, b);
        let ghost old_view = matrix_view(&rows);
        let ghost old_done = done;
        proof {
            done = done.push(cs@.subrange(start as int, b as int));
        }
        rows.push(row);
        assert(matrix_view(&rows) =~= old_view.push(row@));
        assert(done.map_values(|l: Seq<char>| cells(l)) =~= old_done.map_values(|l: Seq<char>| cells(l)).push(row@));
        assert(matrix_view(&rows) == parse_grid(s@));
        match crate::nodes::validate(&rows) {
            Err(_) => Err(PieceError::Ragged),
            Ok(_) => {
                let ghost g = matrix_view(&rows);
                assert(rows@[0]@ == g[0]);
                Ok(Block2D { w: rows[0].len(), h: rows.len(), data: rows })
            },
        }
    }

    /// A piece with the same cells.
    pub fn copy(&self) -> (r: Block2D)
        requires
            self.wf(),
        ensures
            r.wf(),
            r.grid() == self.grid(),
    {
        let mut data: Vec<Vec<bool>> = Vec::new();
        let mut i: usize = 0;
        while i < self.data.len()
            invariant
                i <= self.data.len(),
                data.len() == i,
                forall|k: int| 0 <= k < i ==> (#[trigger] data@[k])@ == self.data@[k]@,
            decreases self.data.len() - i,
        {
            let row = self.data[i].clone();
            assert(row@ =~= self.data@[i as int]@);
            data.push(row);
            i = i + 1;
        }
        let r = Block2D { w: self.w, h: self.h, data };
        assert(r.grid() =~= self.grid());
        r
    }

    /// Reverse the order of the rows.
    pub fn flip(&mut self)
        requires
            old(self).wf(),
        ensures
            final(self).wf(),
            final(self).grid() == flipped(old(self).grid()),
    {
        let ghost g = self.grid();
        let h = self.data.len();
        let mut data: Vec<Vec<bool>> = Vec::new();
        let mut i: usize = 0;
        while i < h
            invariant
                h == self.data.len(),
                g == self.grid(),
                i <= h,
                data.len() == i,
                forall|k: int| 0 <= k < i ==> (#[trigger] data@[k])@ == self.data@[h - 1 - k]@,
            decreases h - i,
        {
            let row = self.data[h - 1 - i].clone();
            assert(row@ =~= self.data@[h - 1 - i]@);
            data.push(row);
            i = i + 1;
        }
        self.data = data;
        assert(self.grid() =~= flipped(g));
    }

    /// Turn the piece a quarter clockwise; width and height swap.
    pub fn rotate(&mut self)
        requires
            old(self).wf(),
        ensures
            final(self).wf(),
            final(self).grid() == rotated(old(self).grid()),
    {
        let ghost g = self.grid();
        proof {
            lemma_rotated_grid(g);
        }
        let h = self.h;
        let w = self.w;
        let mut data: Vec<Vec<bool>> = Vec::new();
        let mut a: usize = 0;
        while a < w
            invariant
                g == self.grid(),
                self.wf(),
                h == self.h,
                w == self.w,
                a <= w,
                data.len() == a,
                forall|k: int| 0 <= k < a ==> (#[trigger] data@[k])@ == rotated(g)[k],
            decreases w - a,
        {
            let mut row: Vec<bool> = Vec::new();
            let mut b: usize = 0;
            while b < h
                invariant
                    g == self.grid(),
                    self.wf(),
                    h == self.h,
                    w == self.w,
                    a < w,
                    b <= h,
                    row.len() == b,
                    forall|k: int| 0 <= k < b ==> row@[k] == g[h - 1 - k][a as int],
                decreases h - b,
            {
                assert(g[h - 1 - b] == self.data@[h - 1 - b]@);
                row.push(self.data[h - 1 - b][a]);
                b = b + 1;
            }
            assert(row@ =~= rotated(g)[a as int]);
            data.push(row);
            a = a + 1;
        }
        self.data = data;
        self.w = h;
        self.h = w;
        assert(self.grid() =~= rotated(g));
    }

    /// The distinct orientations of the piece under the eight symmetries of the
    /// square, each listed once.
    pub fn get_transformations(&self) -> (r: Vec<Block2D>)
        requires
            self.wf(),
        ensures
            forall|i: int| 0 <= i < r.len() ==> (#[trigger] r@[i]).wf(),
            forall|i: int| 0 <= i < r.len() ==> is_orientation_of(self.grid(), #[trigger] r@[i].grid()),
            forall|k: int| 0 <= k < 8 ==> lists_grid(r@, #[trigger] orientation(self.grid(), k)),
            forall|i: int, j: int| 0 <= i < j < r.len() ==> (#[trigger] r@[i]).grid() != (#[trigger] r@[j]).grid(),
    {
        let ghost g = self.grid();
        let mut out: Vec<Block2D> = Vec::new();
        let ghost mut witness: Seq<int> = seq![];
        let mut cur = self.copy();
        let mut k: usize = 0;
        while k < 8
            invariant
                k <= 8,
                self.wf(),
                g == self.grid(),
                cur.wf(),
                k < 8 ==> cur.grid() == orientation(g, k as int),
                witness.len() == k,
                forall|i: int| 0 <= i < out.len() ==> (#[trigger] out@[i]).wf(),
                forall|i: int| 0 <= i < out.len() ==> is_orientation_of(g, #[trigger] out@[i].grid()),
                forall|k1: int| 0 <= k1 < k ==> 0 <= #[trigger] witness[k1] < out.len() && out@[witness[k1]].grid() == orientation(g, k1),
                forall|i: int, j: int| 0 <= i < j < out.len() ==> (#[trigger] out@[i]).grid() != (#[trigger] out@[j]).grid(),
            decreases 8 - k,
        {
            let ghost before = out@;
            let next = cur.copy();
            let idx = push_unique(&mut out, cur);
            proof {
                witness = witness.push(idx as int);
                assert forall|k1: int| 0 <= k1 < k + 1 implies 0 <= #[trigger] witness[k1] < out.len() && out@[witness[k1]].grid() == orientation(g, k1) by {
                    if k1 < k {
                        assert(out@[witness[k1]] == before[witness[k1]]);
                    }
                }
            }
            if k == 3 {
                cur = self.copy();
                cur.flip();
                assert(orientation(g, 4) == flipped(g));
            } else {
                cur = next;
                if k < 7 {
                    cur.rotate();
                }
            }
            k = k + 1;
        }
        assert forall|k1: int| 0 <= k1 < 8 implies lists_grid(out@, #[trigger] orientation(self.grid(), k1)) by {
            assert(out@[witness[k1]].grid() == orientation(g, k1));
        }
        out
    }
}

/// Append `b` to `list` unless a piece with the same cells is already there.
fn push_unique(list: &mut Vec<Block2D>, b: Block2D) -> (idx: usize)
    requires
        b.wf(),
        forall|i: int, j: int| 0 <= i < j < old(list).len() ==> (#[trigger] old(list)@[i]).grid() != (#[trigger] old(list)@[j]).grid(),
    ensures
        final(list).len() >= old(list).len(),
        forall|i: int| 0 <= i < old(list).len() ==> #[trigger] final(list)@[i] == old(list)@[i],
        forall|i: int| old(list).len() <= i < final(list).len() ==> #[trigger] final(list)@[i] == b,
        idx < final(list).len(),
        final(list)@[idx as int].grid() == b.grid(),
        forall|i: int, j: int| 0 <= i < j < final(list).len() ==> (#[trigger] final(list)@[i]).grid() != (#[trigger] final(list)@[j]).grid(),
{
    let mut i: usize = 0;
    while i < list.len()
        invariant
            i <= list.len(),
            list@ == old(list)@,
            forall|k: int| 0 <= k < i ==> (#[trigger] list@[k]).grid() != b.grid(),
            forall|i1: int, j1: int| 0 <= i1 < j1 < list.len() ==> (#[trigger] list@[i1]).grid() != (#[trigger] list@[j1]).grid(),
        decreases list.len() - i,
    {
        if same_grid(&list[i].data, &b.data) {
            assert(list@[i as int].grid() == b.grid());
            return i;
        }
        i = i + 1;
    }
    let idx = list.len();
    list.push(b);
    idx
}

/// Whether two grids hold the same rows.
pub fn same_grid(a: &Vec<Vec<bool>>, b: &Vec<Vec<bool>>) -> (r: bool)
    ensures
        r == (matrix_view(a) == matrix_view(b)),
{
    if a.len() != b.len() {
        assert(matrix_view(a).len() != matrix_view(b).len());
        return false;
    }
    let mut i: usize = 0;
    while i < a.len()
        invariant
            a.len() == b.len(),
            i <= a.len(),
            forall|k: int| 0 <= k < i ==> (#[trigger] a@[k])@ == b@[k]@,
        decreases a.len() - i,
    {
        let ra = &a[i];
        let rb = &b[i];
        assert(matrix_view(a)[i as int] == ra@);
        assert(matrix_view(b)[i as int] == rb@);
        if ra.len() != rb.len() {
            assert(matrix_view(a)[i as int] != matrix_view(b)[i as int]);
            return false;
        }
        let mut j: usize = 0;
        while j < ra.len()
            invariant
                ra.len() == rb.len(),
                j <= ra.len(),
                forall|k: int| 0 <= k < j ==> ra@[k] == rb@[k],
                matrix_view(a)[i as int] == ra@,
                matrix_view(b)[i as int] == rb@,
            decreases ra.len() - j,
        {
            if ra[j] != rb[j] {
                assert(matrix_view(a)[i as int][j as int] != matrix_view(b)[i as int][j as int]);
                return false;
            }
            j = j + 1;
        }
        assert(ra@ =~= rb@);
        i = i + 1;
    }
    assert(matrix_view(a) =~= matrix_view(b));
    true
}

/// Why a tiling puzzle cannot be set up; a piece is named by its position.
#[derive(Clone, Copy, PartialEq, Eq, Debug)]
pub enum TilingError {
    EmptyBoard,
    EmptyPiece(usize),
    RaggedPiece(usize),
    PieceTooLarge(usize),
}

/// Some orientation of the grid `g` fits on a `w` by `h` board.
pub open spec fn fits(g: Seq<Seq<bool>>, w: int, h: int) -> bool {
    (g[0].len() <= w && g.len() <= h) || (g.len() <= w && g[0].len() <= h)
}

/// The piece string describes a piece that fits on a `w` by `h` board.
pub open spec fn piece_ok(s: Seq<char>, w: int, h: int) -> bool {
    piece_error(s).is_none() && fits(parse_grid(s), w, h)
}

/// Whether the orientation `o`, shifted right by `sx` and down by `sy`, fills cell `(x, y)`.
pub open spec fn covers_cell(o: Seq<Seq<bool>>, sx: int, sy: int, x: int, y: int) -> bool {
    sx <= x < sx + o[0].len() && sy <= y < sy + o.len() && o[y - sy][x - sx]
}

/// The cells of a `w` by `h` board, row by row, that `o` shifted by `(sx, sy)` fills.
pub open spec fn placement_cells(w: int, h: int, o: Seq<Seq<bool>>, sx: int, sy: int) -> Seq<bool> {
    Seq::new((w * h) as nat, |k: int| covers_cell(o, sx, sy, k % w, k / w))
}

/// `o` shifted by `(sx, sy)` lies wholly on a `w` by `h` board.
pub open spec fn fits_at(o: Seq<Seq<bool>>, w: int, h: int, sx: int, sy: int) -> bool {
    0 <= sx && sx + o[0].len() <= w && 0 <= sy && sy + o.len() <= h
}

/// Some element of `places` is `pl`.
pub open spec fn has_place(places: Seq<(int, Seq<Seq<bool>>, int, int)>, pl: (int, Seq<Seq<bool>>, int, int)) -> bool {
    exists|k: int| 0 <= k < places.len() && places[k] == pl
}

/// Some row of `m` is `row`.
pub open spec fn has_row(m: Seq<Seq<bool>>, row: Seq<bool>) -> bool {
    exists|k: int| 0 <= k < m.len() && m[k] == row
}

proof fn lemma_has_place_push(places: Seq<(int, Seq<Seq<bool>>, int, int)>, x: (int, Seq<Seq<bool>>, int, int))
    ensures
        forall|pl: (int, Seq<Seq<bool>>, int, int)| has_place(places, pl) ==> #[trigger] has_place(places.push(x), pl),
        has_place(places.push(x), x),
{
    assert forall|pl: (int, Seq<Seq<bool>>, int, int)| has_place(places, pl) implies #[trigger] has_place(places.push(x), pl) by {
        let k = choose|k: int| 0 <= k < places.len() && places[k] == pl;
        assert(places.push(x)[k] == pl);
    }
    assert(places.push(x)[places.len() as int] == x);
}

/// A board with the pieces to tile it with.
#[derive(Debug)]
pub struct Game2D {
    pub w: usize,
    pub h: usize,
    pub blocks: Vec<Block2D>,
}

impl Game2D {
    /// A non-empty board and well-formed pieces.
    pub open spec fn wf(&self) -> bool {
        &&& self.w > 0
        &&& self.h > 0
        &&& forall|i: int| 0 <= i < self.blocks.len() ==> (#[trigger] self.blocks@[i]).wf()
    }

    /// `pl = (piece, orientation, sx, sy)` places an orientation of a piece of the
    /// game wholly on the board.
    pub open spec fn is_placement(&self, pl: (int, Seq<Seq<bool>>, int, int)) -> bool {
        let (p, o, sx, sy) = pl;
        &&& 0 <= p < self.blocks.len()
        &&& is_orientation_of(self.blocks@[p].grid(), o)
        &&& is_grid(o)
        &&& 0 <= sx && sx + o[0].len() <= self.w
        &&& 0 <= sy && sy + o.len() <= self.h
    }

    /// The matrix row of a placement: the piece's column among the piece columns,
    /// then the board cells it fills.
    pub open spec fn placement_row(&self, pl: (int, Seq<Seq<bool>>, int, int)) -> Seq<bool> {
        owner_bits(self.blocks.len() as int, pl.0) + placement_cells(self.w as int, self.h as int, pl.1, pl.2, pl.3)
    }

    /// `row` is the matrix row of some placement.
    pub open spec fn is_placement_row(&self, row: Seq<bool>) -> bool {
        exists|pl: (int, Seq<Seq<bool>>, int, int)| #[trigger] self.is_placement(pl) && row == self.placement_row(pl)
    }

    /// Read the pieces of a `w` by `h` board.
    pub fn from_strings(w: usize, h: usize, s: Vec<&str>) -> (r: Result<Game2D, TilingError>)
        ensures
            r matches Ok(_) <==> (w > 0 && h > 0 && forall|i: int| 0 <= i < s.len() ==> piece_ok(#[trigger] s@[i]@, w as int, h as int)),
            r == Err::<Game2D, TilingError>(TilingError::EmptyBoard) <==> (w == 0 || h == 0),
            forall|i: usize| r == Err::<Game2D, TilingError>(TilingError::EmptyPiece(i)) ==> first_bad(s@, w as int, h as int, i as int)
                && piece_error(s@[i as int]@) == Some(PieceError::Empty),
            forall|i: usize| r == Err::<Game2D, TilingError>(TilingError::RaggedPiece(i)) ==> first_bad(s@, w as int, h as int, i as int)
                && piece_error(s@[i as int]@) == Some(PieceError::Ragged),
            forall|i: usize| r == Err::<Game2D, TilingError>(TilingError::PieceTooLarge(i)) ==> first_bad(s@, w as int, h as int, i as int)
                && piece_error(s@[i as int]@).is_none(),
            forall|g: Game2D| r == Ok::<Game2D, TilingError>(g) ==> {
                &&& g.wf()
                &&& g.w == w
                &&& g.h == h
                &&& g.blocks.len() == s.len()
                &&& forall|i: int| 0 <= i < s.len() ==> (#[trigger] g.blocks@[i]).grid() == parse_grid(s@[i]@)
            },
    {
        if w == 0 || h == 0 {
            return Err(TilingError::EmptyBoard);
        }
        let mut blocks: Vec<Block2D> = Vec::new();
        let mut i: usize = 0;
        while i < s.len()
            invariant
                w > 0,
                h > 0,
                i <= s.len(),
                blocks.len() == i,
                forall|k: int| 0 <= k < i ==> piece_ok(#[trigger] s@[k]@, w as int, h as int),
                forall|k: int| 0 <= k < i ==> (#[trigger] blocks@[k]).wf() && blocks@[k].grid() == parse_grid(s@[k]@),
            decreases s.len() - i,
        {
            match Block2D::from_string(s[i]) {
                Err(PieceError::Empty) => {
                    return Err(TilingError::EmptyPiece(i));
                },
                Err(PieceError::Ragged) => {
                    return Err(TilingError::RaggedPiece(i));
                },
                Ok(b) => {
                    assert(b.grid() == parse_grid(s@[i as int]@));
                    if !((b.w <= w && b.h <= h) || (b.h <= w && b.w <= h)) {
                        assert(!piece_ok(s@[i as int]@, w as int, h as int));
                        return Err(TilingError::PieceTooLarge(i));
                    }
                    assert(piece_ok(s@[i as int]@, w as int, h as int));
                    blocks.push(b);
                },
            }
            i = i + 1;
        }
        Ok(Game2D { w, h, blocks })
    }

    /// The exact cover matrix of the puzzle: one row per placement of an
    /// orientation of a piece on the board, with a column per piece and then a
    /// column per board cell, row by row.
    pub fn get_matrix(&self) -> (r: Vec<Vec<bool>>)
        requires
            self.wf(),
            self.w * self.h + self.blocks.len() <= usize::MAX,
        ensures
            forall|k: int| 0 <= k < r.len() ==> self.is_placement_row(#[trigger] r@[k]@),
            forall|pl: (int, Seq<Seq<bool>>, int, int)| #[trigger] self.is_placement(pl) ==> has_row(matrix_view(&r), self.placement_row(pl)),
    {
        let np = self.blocks.len();
        let mut owners: Vec<usize> = Vec::new();
        let mut rows: Vec<Vec<bool>> = Vec::new();
        let ghost mut places: Seq<(int, Seq<Seq<bool>>, int, int)> = seq![];
        let mut p: usize = 0;
        while p < np
            invariant
                self.wf(),
                self.w * self.h + self.blocks.len() <= usize::MAX,
                np == self.blocks.len(),
                p <= np,
                forall|p1: int, k8: int, sx1: int, sy1: int| 0 <= p1 < p && 0 <= k8 < 8 && fits_at(orientation(self.blocks@[p1].grid(), k8), self.w as int, self.h as int, sx1, sy1) ==> #[trigger] has_place(places, (p1, orientation(self.blocks@[p1].grid(), k8), sx1, sy1)),
                owners.len() == rows.len(),
                places.len() == rows.len(),
                forall|k: int| 0 <= k < rows.len() ==> #[trigger] owners@[k] < np && owners@[k] == places[k].0,
                forall|k: int| 0 <= k < rows.len() ==> self.is_placement(#[trigger] places[k]),
                forall|k: int| 0 <= k < rows.len() ==> (#[trigger] rows@[k])@ == placement_cells(self.w as int, self.h as int, places[k].1, places[k].2, places[k].3),
            decreases np - p,
        {
            let ts = self.blocks[p].get_transformations();
            let mut t: usize = 0;
            while t < ts.len()
                invariant
                    self.wf(),
                    self.w * self.h + self.blocks.len() <= usize::MAX,
                    np == self.blocks.len(),
                    p < np,
                    t <= ts.len(),
                    forall|k: int| 0 <= k < 8 ==> lists_grid(ts@, #[trigger] orientation(self.blocks@[p as int].grid(), k)),
                    forall|p1: int, k8: int, sx1: int, sy1: int| 0 <= p1 < p && 0 <= k8 < 8 && fits_at(orientation(self.blocks@[p1].grid(), k8), self.w as int, self.h as int, sx1, sy1) ==> #[trigger] has_place(places, (p1, orientation(self.blocks@[p1].grid(), k8), sx1, sy1)),
                    forall|t1: int, sx1: int, sy1: int| 0 <= t1 < t && fits_at(ts@[t1].grid(), self.w as int, self.h as int, sx1, sy1) ==> #[trigger] has_place(places, (p as int, ts@[t1].grid(), sx1, sy1)),
                    forall|i: int| 0 <= i < ts.len() ==> (#[trigger] ts@[i]).wf(),
                    forall|i: int| 0 <= i < ts.len() ==> is_orientation_of(self.blocks@[p as int].grid(), #[trigger] ts@[i].grid()),
                    owners.len() == rows.len(),
                    places.len() == rows.len(),
                    forall|k: int| 0 <= k < rows.len() ==> #[trigger] owners@[k] < np && owners@[k] == places[k].0,
                    forall|k: int| 0 <= k < rows.len() ==> self.is_placement(#[trigger] places[k]),
                    forall|k: int| 0 <= k < rows.len() ==> (#[trigger] rows@[k])@ == placement_cells(self.w as int, self.h as int, places[k].1, places[k].2, places[k].3),
                decreases ts.len() - t,
            {
                let o = &ts[t];
                if o.w <= self.w && o.h <= self.h {
                    let mut sy: usize = 0;
                    while sy <= self.h - o.h
                        invariant
                            self.wf(),
                            self.w * self.h + self.blocks.len() <= usize::MAX,
                            np == self.blocks.len(),
                            p < np,
                            t < ts.len(),
                            o == &ts@[t as int],
                            forall|p1: int, k8: int, sx1: int, sy1: int| 0 <= p1 < p && 0 <= k8 < 8 && fits_at(orientation(self.blocks@[p1].grid(), k8), self.w as int, self.h as int, sx1, sy1) ==> #[trigger] has_place(places, (p1, orientation(self.blocks@[p1].grid(), k8), sx1, sy1)),
                            forall|t1: int, sx1: int, sy1: int| 0 <= t1 < t && fits_at(ts@[t1].grid(), self.w as int, self.h as int, sx1, sy1) ==> #[trigger] has_place(places, (p as int, ts@[t1].grid(), sx1, sy1)),
                            forall|sx1: int, sy1: int| 0 <= sy1 < sy && fits_at(o.grid(), self.w as int, self.h as int, sx1, sy1) ==> #[trigger] has_place(places, (p as int, o.grid(), sx1, sy1)),
                            o.wf(),
                            o.w <= self.w,
                            o.h <= self.h,
                            is_orientation_of(self.blocks@[p as int].grid(), o.grid()),
                            owners.len() == rows.len(),
                            places.len() == rows.len(),
                            forall|k: int| 0 <= k < rows.len() ==> #[trigger] owners@[k] < np && owners@[k] == places[k].0,
                            forall|k: int| 0 <= k < rows.len() ==> self.is_placement(#[trigger] places[k]),
                            forall|k: int| 0 <= k < rows.len() ==> (#[trigger] rows@[k])@ == placement_cells(self.w as int, self.h as int, places[k].1, places[k].2, places[k].3),
                        decreases self.h - o.h + 1 - sy,
                    {
                        let mut sx: usize = 0;
                        while sx <= self.w - o.w
                            invariant
                                self.wf(),
                                self.w * self.h + self.blocks.len() <= usize::MAX,
                                np == self.blocks.len(),
                                p < np,
                                o.wf(),
                                o.w <= self.w,
                                o.h <= self.h,
                                sy + o.h <= self.h,
                                t < ts.len(),
                                o == &ts@[t as int],
                                forall|p1: int, k8: int, sx1: int, sy1: int| 0 <= p1 < p && 0 <= k8 < 8 && fits_at(orientation(self.blocks@[p1].grid(), k8), self.w as int, self.h as int, sx1, sy1) ==> #[trigger] has_place(places, (p1, orientation(self.blocks@[p1].grid(), k8), sx1, sy1)),
                                forall|t1: int, sx1: int, sy1: int| 0 <= t1 < t && fits_at(ts@[t1].grid(), self.w as int, self.h as int, sx1, sy1) ==> #[trigger] has_place(places, (p as int, ts@[t1].grid(), sx1, sy1)),
                                forall|sx1: int, sy1: int| 0 <= sy1 < sy && fits_at(o.grid(), self.w as int, self.h as int, sx1, sy1) ==> #[trigger] has_place(places, (p as int, o.grid(), sx1, sy1)),
                                forall|sx1: int| 0 <= sx1 < sx ==> #[trigger] has_place(places, (p as int, o.grid(), sx1, sy as int)),
                                is_orientation_of(self.blocks@[p as int].grid(), o.grid()),
                                owners.len() == rows.len(),
                                places.len() == rows.len(),
                                forall|k: int| 0 <= k < rows.len() ==> #[trigger] owners@[k] < np && owners@[k] == places[k].0,
                                forall|k: int| 0 <= k < rows.len() ==> self.is_placement(#[trigger] places[k]),
                                forall|k: int| 0 <= k < rows.len() ==> (#[trigger] rows@[k])@ == placement_cells(self.w as int, self.h as int, places[k].1, places[k].2, places[k].3),
                            decreases self.w - o.w + 1 - sx,
                        {
                            let entry = place(self.w, self.h, o, sx, sy);
                            rows.push(entry);
                            owners.push(p);
                            proof {
                                lemma_has_place_push(places, (p as int, o.grid(), sx as int, sy as int));
                                places = places.push((p as int, o.grid(), sx as int, sy as int));
                            }
                            sx = sx + 1;
                        }
                        sy = sy + 1;
                    }
                }
                t = t + 1;
            }
            p = p + 1;
        }
        let r = Node::matrix_from_variations(np, &owners, &rows);
        assert forall|pl: (int, Seq<Seq<bool>>, int, int)| #[trigger] self.is_placement(pl) implies has_row(matrix_view(&r), self.placement_row(pl)) by {
            let k8 = choose|k8: int| 0 <= k8 < 8 && orientation(self.blocks@[pl.0].grid(), k8) == pl.1;
            assert(has_place(places, (pl.0, orientation(self.blocks@[pl.0].grid(), k8), pl.2, pl.3)));
            let k = choose|k: int| 0 <= k < places.len() && places[k] == pl;
            assert(matrix_view(&r)[k] == r@[k]@);
        }
        assert forall|k: int| 0 <= k < r.len() implies self.is_placement_row(#[trigger] r@[k]@) by {
            assert(self.is_placement(places[k]));
            assert(r@[k]@ == self.placement_row(places[k]));
        }
        r
    }
}

/// The pieces before `i` are fine and piece `i` is not.
pub open spec fn first_bad(s: Seq<&str>, w: int, h: int, i: int) -> bool {
    &&& w > 0 && h > 0
    &&& 0 <= i < s.len()
    &&& forall|k: int| 0 <= k < i ==> piece_ok(#[trigger] s[k]@, w, h)
    &&& !piece_ok(s[i]@, w, h)
}

/// The board cells that `o` shifted by `(sx, sy)` fills, row by row.
fn place(w: usize, h: usize, o: &Block2D, sx: usize, sy: usize) -> (r: Vec<bool>)
    requires
        o.wf(),
        w > 0,
        sx + o.w <= w,
        sy + o.h <= h,
        w * h <= usize::MAX,
    ensures
        r@ == placement_cells(w as int, h as int, o.grid(), sx as int, sy as int),
{
    let n = w * h;
    let mut r: Vec<bool> = Vec::new();
    let mut k: usize = 0;
    while k < n
        invariant
            o.wf(),
            w > 0,
            n == w * h,
            k <= n,
            sx + o.w <= w,
            sy + o.h <= h,
            r@ == placement_cells(w as int, h as int, o.grid(), sx as int, sy as int).subrange(0, k as int),
        decreases n - k,
    {
        let x = k % w;
        let y = k / w;
        let filled = sx <= x && x < sx + o.w && sy <= y && y < sy + o.h && {
            assert(o.grid()[(y - sy) as int] == o.data@[(y - sy) as int]@);
            o.data[y - sy][x - sx]
        };
        r.push(filled);
        k = k + 1;
        assert(r@ =~= placement_cells(w as int, h as int, o.grid(), sx as int, sy as int).subrange(0, k as int));
    }
    assert(placement_cells(w as int, h as int, o.grid(), sx as int, sy as int).subrange(0, n as int)
        =~= placement_cells(w as int, h as int, o.grid(), sx as int, sy as int));
    r
}

impl Game2D {
    /// `row` is the matrix row of a placement of piece `p`.
    pub open spec fn places_piece(&self, row: Seq<bool>, p: int) -> bool {
        exists|pl: (int, Seq<Seq<bool>>, int, int)| #[trigger] self.is_placement(pl) && pl.0 == p && row == self.placement_row(pl)
    }

    /// `row` is the matrix row of a placement that fills board cell `(x, y)`.
    pub open spec fn fills_cell(&self, row: Seq<bool>, x: int, y: int) -> bool {
        exists|pl: (int, Seq<Seq<bool>>, int, int)| #[trigger] self.is_placement(pl) && row == self.placement_row(pl)
            && covers_cell(pl.1, pl.2, pl.3, x, y)
    }

    /// Exactly one of the rows `s` of `m` places piece `p`.
    pub open spec fn placed_once(&self, m: Seq<Seq<bool>>, s: Seq<usize>, p: int) -> bool {
        &&& exists|k: int| 0 <= k < s.len() && #[trigger] self.places_piece(m[s[k] as int], p)
        &&& forall|k1: int, k2: int|
            0 <= k1 < s.len() && 0 <= k2 < s.len() && #[trigger] self.places_piece(m[s[k1] as int], p)
                && #[trigger] self.places_piece(m[s[k2] as int], p) ==> k1 == k2
    }

    /// Exactly one of the rows `s` of `m` fills board cell `(x, y)`.
    pub open spec fn filled_once(&self, m: Seq<Seq<bool>>, s: Seq<usize>, x: int, y: int) -> bool {
        &&& exists|k: int| 0 <= k < s.len() && #[trigger] self.fills_cell(m[s[k] as int], x, y)
        &&& forall|k1: int, k2: int|
            0 <= k1 < s.len() && 0 <= k2 < s.len() && #[trigger] self.fills_cell(m[s[k1] as int], x, y)
                && #[trigger] self.fills_cell(m[s[k2] as int], x, y) ==> k1 == k2
    }

    /// The column of board cell `(x, y)`.
    pub open spec fn cell_column(&self, x: int, y: int) -> int {
        self.blocks.len() + y * self.w + x
    }
}

proof fn lemma_cell_index(w: int, h: int, x: int, y: int)
    requires
        0 <= x < w,
        0 <= y < h,
    ensures
        0 <= y * w + x < w * h,
        (y * w + x) % w == x,
        (y * w + x) / w == y,
{
    assert(0 <= y * w + x < w * h) by (nonlinear_arith)
        requires
            0 <= x < w,
            0 <= y < h,
    ;
    lemma_fundamental_div_mod_converse(y * w + x, w, y, x);
}

proof fn lemma_placement_bits(g: &Game2D, pl: (int, Seq<Seq<bool>>, int, int))
    requires
        g.wf(),
        g.is_placement(pl),
    ensures
        g.placement_row(pl).len() == g.blocks.len() + g.w * g.h,
        forall|p: int| 0 <= p < g.blocks.len() ==> (#[trigger] g.placement_row(pl)[p] <==> p == pl.0),
        forall|x: int, y: int| 0 <= x < g.w && 0 <= y < g.h ==> (#[trigger] g.placement_row(pl)[g.cell_column(x, y)]
            <==> covers_cell(pl.1, pl.2, pl.3, x, y)),
{
    assert(g.w * g.h >= 0) by (nonlinear_arith)
        requires
            g.w > 0,
            g.h > 0,
    ;
    assert forall|x: int, y: int| 0 <= x < g.w && 0 <= y < g.h implies (#[trigger] g.placement_row(pl)[g.cell_column(x, y)]
        <==> covers_cell(pl.1, pl.2, pl.3, x, y)) by {
        lemma_cell_index(g.w as int, g.h as int, x, y);
    }
}

/// An exact cover of a tiling matrix is a tiling: each piece is placed by exactly
/// one selected row, and each board cell is filled by exactly one selected row.
pub proof fn lemma_tiling_cover(g: &Game2D, m: Seq<Seq<bool>>, s: Seq<usize>)
    requires
        g.wf(),
        m.len() > 0,
        forall|k: int| 0 <= k < m.len() ==> g.is_placement_row(#[trigger] m[k]),
        is_exact_cover(m, s),
    ensures
        forall|p: int| 0 <= p < g.blocks.len() ==> #[trigger] g.placed_once(m, s, p),
        forall|x: int, y: int| 0 <= x < g.w && 0 <= y < g.h ==> #[trigger] g.filled_once(m, s, x, y),
{
    let np = g.blocks.len() as int;
    let pl0 = choose|pl: (int, Seq<Seq<bool>>, int, int)| #[trigger] g.is_placement(pl) && m[0] == g.placement_row(pl);
    lemma_placement_bits(g, pl0);
    // the selected rows' bits say which piece they place and which cells they fill
    assert forall|k: int, p: int| 0 <= k < s.len() && 0 <= p < np implies (#[trigger] g.places_piece(m[s[k] as int], p)
        <==> m[s[k] as int][p]) by {
        let row = m[s[k] as int];
        assert(g.is_placement_row(row));
        let pl = choose|pl: (int, Seq<Seq<bool>>, int, int)| #[trigger] g.is_placement(pl) && row == g.placement_row(pl);
        lemma_placement_bits(g, pl);
        if g.places_piece(row, p) {
            let pl2 = choose|pl2: (int, Seq<Seq<bool>>, int, int)| #[trigger] g.is_placement(pl2) && pl2.0 == p && row == g.placement_row(pl2);
            lemma_placement_bits(g, pl2);
        }
    }
    assert forall|k: int, x: int, y: int| 0 <= k < s.len() && 0 <= x < g.w && 0 <= y < g.h implies (#[trigger] g.fills_cell(
        m[s[k] as int],
        x,
        y,
    ) <==> m[s[k] as int][g.cell_column(x, y)]) by {
        let row = m[s[k] as int];
        assert(g.is_placement_row(row));
        let pl = choose|pl: (int, Seq<Seq<bool>>, int, int)| #[trigger] g.is_placement(pl) && row == g.placement_row(pl);
        lemma_placement_bits(g, pl);
        if g.fills_cell(row, x, y) {
            let pl2 = choose|pl2: (int, Seq<Seq<bool>>, int, int)| #[trigger] g.is_placement(pl2) && row == g.placement_row(pl2)
                && covers_cell(pl2.1, pl2.2, pl2.3, x, y);
            lemma_placement_bits(g, pl2);
        }
    }
    assert forall|p: int| 0 <= p < np implies #[trigger] g.placed_once(m, s, p) by {
        assert(covers_column_once(m, s, p));
        let k = choose|k: int| 0 <= k < s.len() && #[trigger] m[s[k] as int][p];
        assert(g.places_piece(m[s[k] as int], p));
    }
    assert forall|x: int, y: int| 0 <= x < g.w && 0 <= y < g.h implies #[trigger] g.filled_once(m, s, x, y) by {
        let j = g.cell_column(x, y);
        lemma_cell_index(g.w as int, g.h as int, x, y);
        assert(covers_column_once(m, s, j));
        let k = choose|k: int| 0 <= k < s.len() && #[trigger] m[s[k] as int][j];
        assert(g.fills_cell(m[s[k] as int], x, y));
    }
}

} // verus!
