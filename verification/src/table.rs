use vstd::prelude::*;

use crate::lexeme::vecs_view;

verus! {

// ---------------------------------------------------------------------------
// The table, as mathematics: a model of the accumulated state, and the text
// that rendering it produces.
// ---------------------------------------------------------------------------

/// The accumulated table: the per-column widths, the flattened cells (header
/// first, then each accepted body row, row-major), and the count of accepted
/// body rows. Widths count code points.
#[verifier::ext_equal]
pub ghost struct TableModel {
    pub widths: Seq<nat>,
    pub cells: Seq<Seq<char>>,
    pub nrows: nat,
}

impl TableModel {
    /// The table's shape: one cell per column for the header and each
    /// accepted row, and each column's width covers every cell that sits in
    /// that column.
    pub open spec fn wf(self) -> bool {
        &&& self.cells.len() == self.widths.len() * (1 + self.nrows)
        &&& forall|j: int|
            0 <= j < self.cells.len() ==> (#[trigger] self.cells[j]).len() <= self.widths[j % (
            self.widths.len() as int)]
    }
}

/// An empty table.
pub open spec fn model_empty() -> TableModel {
    TableModel { widths: Seq::empty(), cells: Seq::empty(), nrows: 0 }
}

/// Attaching the header: it fixes the column count, and each column's width
/// starts at its header cell's length.
pub open spec fn model_head(header: Seq<Seq<char>>) -> TableModel {
    TableModel {
        widths: header.map(|i: int, c: Seq<char>| c.len()),
        cells: header,
        nrows: 0,
    }
}

pub open spec fn max_nat(a: nat, b: nat) -> nat {
    if a >= b {
        a
    } else {
        b
    }
}

/// Appending one body row: every column's width grows to cover the new cell,
/// the cells join the flattened store, and the row count steps up.
pub open spec fn model_tail(m: TableModel, row: Seq<Seq<char>>) -> TableModel {
    TableModel {
        widths: Seq::new(m.widths.len(), |j: int| max_nat(m.widths[j], row[j].len())),
        cells: m.cells + row,
        nrows: m.nrows + 1,
    }
}

/// Appending a list of body rows in order.
pub open spec fn model_fold(m: TableModel, rows: Seq<Seq<Seq<char>>>) -> TableModel
    decreases rows.len(),
{
    if rows.len() == 0 {
        m
    } else {
        model_fold(model_tail(m, rows[0]), rows.drop_first())
    }
}

pub proof fn lemma_model_head_wf(header: Seq<Seq<char>>)
    ensures
        model_head(header).wf(),
{
    let m = model_head(header);
    let n = m.widths.len() as int;
    assert(n * (1 + 0) == n) by (nonlinear_arith);
    assert forall|j: int| 0 <= j < m.cells.len() implies (#[trigger] m.cells[j]).len()
        <= m.widths[j % (m.widths.len() as int)] by {
        vstd::arithmetic::div_mod::lemma_small_mod(j as nat, m.widths.len());
    }
}

pub proof fn lemma_model_tail_wf(m: TableModel, row: Seq<Seq<char>>)
    requires
        m.wf(),
        row.len() == m.widths.len(),
    ensures
        model_tail(m, row).wf(),
{
    let t = model_tail(m, row);
    let n = m.widths.len() as int;
    let nr = m.nrows as int;
    assert(n * (1 + (nr + 1)) == n * (1 + nr) + n) by (nonlinear_arith);
    assert(t.cells.len() == m.cells.len() + row.len());
    if n == 0 {
        assert(0int * (1 + nr) == 0) by (nonlinear_arith);
        assert(t.cells.len() == 0);
    } else {
        assert forall|j: int| 0 <= j < t.cells.len() implies (#[trigger] t.cells[j]).len()
            <= t.widths[j % (t.widths.len() as int)] by {
            if j < m.cells.len() {
                assert(m.cells[j].len() <= m.widths[j % n]);
                assert(t.widths[j % n] >= m.widths[j % n]) by {
                    vstd::arithmetic::div_mod::lemma_mod_bound(j, n);
                };
            } else {
                let k = j - m.cells.len();
                assert(t.cells[j] == row[k]);
                assert(j == n * (1 + nr) + k);
                vstd::arithmetic::div_mod::lemma_mod_multiples_vanish(1 + nr, k, n);
                vstd::arithmetic::div_mod::lemma_small_mod(k as nat, n as nat);
                assert(j % n == k);
            }
        }
    }
}

/// `n` spaces.
pub open spec fn blanks(n: nat) -> Seq<char> {
    Seq::new(n, |i: int| ' ')
}

/// `n` dashes.
pub open spec fn dashes(n: nat) -> Seq<char> {
    Seq::new(n, |i: int| '-')
}

/// One rendered cell: `| `, the cell's text, then spaces out to the column's
/// width and one closing space.
pub open spec fn padded_cell(c: Seq<char>, w: nat) -> Seq<char> {
    seq!['|', ' '] + c + blanks((w - c.len() + 1) as nat)
}

/// The cells of chunk `r` of the flattened store: chunk 0 is the header,
/// chunk `r >= 1` is body row `r`.
pub open spec fn chunk(m: TableModel, r: int) -> Seq<Seq<char>> {
    m.cells.subrange(r * (m.widths.len() as int), (r + 1) * (m.widths.len() as int))
}

/// One rendered line of cells, from column `j` on, closed by `|` and a line
/// break.
pub open spec fn row_line(cells: Seq<Seq<char>>, widths: Seq<nat>, j: int) -> Seq<char>
    decreases widths.len() - j,
{
    if j < 0 || j >= widths.len() {
        seq!['|', '\n']
    } else {
        padded_cell(cells[j], widths[j]) + row_line(cells, widths, j + 1)
    }
}

/// The border between header and body: per column a `|` and two dashes more
/// than the column is wide, closed by `|` and a line break.
pub open spec fn border_line(widths: Seq<nat>, j: int) -> Seq<char>
    decreases widths.len() - j,
{
    if j < 0 || j >= widths.len() {
        seq!['|', '\n']
    } else {
        seq!['|'] + dashes(widths[j] + 2) + border_line(widths, j + 1)
    }
}

/// The rendered body rows, from chunk `r` on.
pub open spec fn body_lines(m: TableModel, r: int) -> Seq<char>
    decreases 1 + m.nrows - r,
{
    if r < 1 || r > m.nrows {
        Seq::empty()
    } else {
        row_line(chunk(m, r), m.widths, 0) + body_lines(m, r + 1)
    }
}

/// The full rendered text: nothing for an empty table; the header line; then
/// — unless exactly one body row was accepted, which renders nothing beyond
/// the header — the border and every body row.
pub open spec fn spec_render(m: TableModel) -> Seq<char> {
    if m.cells.len() == 0 {
        Seq::empty()
    } else {
        row_line(chunk(m, 0), m.widths, 0) + if m.nrows == 1 {
            Seq::<char>::empty()
        } else {
            border_line(m.widths, 0) + body_lines(m, 1)
        }
    }
}

/// Rendering depends on the table's contents alone: two renderings of the
/// same table are identical, character for character.
pub proof fn lemma_render_idempotent(m: TableModel, r1: Seq<char>, r2: Seq<char>)
    requires
        r1 == spec_render(m),
        r2 == spec_render(m),
    ensures
        r1 == r2,
{
}

/// The shape of every well-formed table: the flattened store holds exactly
/// one cell per column for the header and each of the body rows, and every
/// column's recorded width covers each cell in that column.
pub proof fn lemma_table_shape(m: TableModel)
    requires
        m.wf(),
    ensures
        m.cells.len() == m.widths.len() * (1 + m.nrows),
        forall|j: int|
            0 <= j < m.cells.len() ==> (#[trigger] m.cells[j]).len() <= m.widths[j % (
            m.widths.len() as int)],
{
}

// ---------------------------------------------------------------------------
// The executable table.
// ---------------------------------------------------------------------------

/// The table accumulator and renderer.
pub struct Table {
    cols_width: Vec<usize>,
    rows: Vec<Vec<char>>,
    rows_len: usize,
}

impl Table {
    /// The accumulated state.
    pub closed spec fn model(&self) -> TableModel {
        TableModel {
            widths: self.cols_width@.map(|i: int, w: usize| w as nat),
            cells: vecs_view(self.rows@),
            nrows: self.rows_len as nat,
        }
    }

    pub fn new() -> (r: Table)
        ensures
            r.model() == model_empty(),
            r.model().wf(),
    {
        let r = Table { cols_width: Vec::new(), rows: Vec::new(), rows_len: 0 };
        proof {
            assert(r.model() =~~= model_empty());
            assert(0int * (1 + 0) == 0) by (nonlinear_arith);
        }
        r
    }

    /// Attaches the header row, which fixes the column count. The table must
    /// still be empty: attaching a header twice is a caller error this
    /// contract rules out.
    #[verifier::loop_isolation(false)]
    pub fn head(self, header: Vec<Vec<char>>) -> (r: Table)
        requires
            self.model().cells.len() == 0,
            self.model().nrows == 0,
        ensures
            r.model() == model_head(vecs_view(header@)),
            r.model().wf(),
    {
        let mut widths: Vec<usize> = Vec::new();
        let mut j: usize = 0;
        while j < header.len()
            invariant
                j <= header@.len(),
                widths@.len() == j,
                forall|i: int| 0 <= i < j ==> widths@[i] == header@[i]@.len(),
            decreases header@.len() - j,
        {
            widths.push(header[j].len());
            j = j + 1;
        }
        let r = Table { cols_width: widths, rows: header, rows_len: self.rows_len };
        proof {
            assert(r.model() =~~= model_head(vecs_view(header@)));
            lemma_model_head_wf(vecs_view(header@));
        }
        r
    }

    /// Appends one body row, which must hold exactly one cell per column:
    /// handing a row of the wrong length to the table is a caller error this
    /// contract rules out. Each column's width grows to cover the new cell.
    #[verifier::loop_isolation(false)]
    pub fn tail(self, row: Vec<Vec<char>>) -> (r: Table)
        requires
            self.model().wf(),
            row@.len() == self.model().widths.len(),
            self.model().widths.len() == 0 ==> self.model().nrows < usize::MAX,
        ensures
            r.model() == model_tail(self.model(), vecs_view(row@)),
            r.model().wf(),
    {
        let mut t = self;
        let ghost m = t.model();
        let n = t.cols_width.len();
        let total = t.rows.len();
        proof {
            assert(m.widths.len() == n);
            assert(m.cells.len() == total);
            if n > 0 {
                let nr = m.nrows as int;
                assert(1 + nr <= (n as int) * (1 + nr)) by (nonlinear_arith)
                    requires
                        n as int >= 1,
                        nr >= 0,
                ;
            }
            assert(vecs_view(t.rows@) =~= m.cells + vecs_view(row@).subrange(0, 0));
        }
        t.rows_len = t.rows_len + 1;
        let mut j: usize = 0;
        while j < n
            invariant
                j <= n,
                n == t.cols_width@.len(),
                row@.len() == n,
                forall|i: int|
                    0 <= i < j ==> t.cols_width@[i] as nat == max_nat(m.widths[i], row@[i]@.len()),
                forall|i: int| j <= i < n ==> t.cols_width@[i] as nat == m.widths[i],
                vecs_view(t.rows@) == m.cells + vecs_view(row@).subrange(0, j as int),
                t.rows_len == self.rows_len + 1,
            decreases n - j,
        {
            let cell_len = row[j].len();
            if cell_len > t.cols_width[j] {
                t.cols_width[j] = cell_len;
            }
            let ghost rows_before = t.rows@;
            t.rows.push(crate::lexeme::clone_chars(&row[j]));
            j = j + 1;
            proof {
                assert(vecs_view(t.rows@) =~= vecs_view(rows_before).push(row@[j - 1]@));
                assert(m.cells + vecs_view(row@).subrange(0, j as int) =~= (m.cells + vecs_view(
                    row@,
                ).subrange(0, j - 1)).push(row@[j - 1]@));
            }
        }
        proof {
            assert(vecs_view(row@).subrange(0, n as int) =~= vecs_view(row@));
            assert(t.model() =~~= model_tail(m, vecs_view(row@)));
            lemma_model_tail_wf(m, vecs_view(row@));
        }
        t
    }

    /// The column count the header fixed.
    pub fn cols_len(&self) -> (r: usize)
        ensures
            r == self.model().widths.len(),
    {
        self.cols_width.len()
    }

    /// How many body rows have been accepted.
    pub fn rows_len(&self) -> (r: usize)
        ensures
            r == self.model().nrows,
    {
        self.rows_len
    }

    /// One rendered cell: `| `, the cell's text, spaces out to the column's
    /// width, one closing space.
    #[verifier::loop_isolation(false)]
    fn push_padded(out: &mut Vec<char>, cell: &Vec<char>, width: usize)
        requires
            cell@.len() <= width,
        ensures
            final(out)@ == old(out)@ + padded_cell(cell@, width as nat),
    {
        out.push('|');
        out.push(' ');
        let mut k: usize = 0;
        while k < cell.len()
            invariant
                k <= cell@.len(),
                out@ == old(out)@ + seq!['|', ' '] + cell@.subrange(0, k as int),
            decreases cell@.len() - k,
        {
            out.push(cell[k]);
            k = k + 1;
            proof {
                assert(out@ =~= old(out)@ + seq!['|', ' '] + cell@.subrange(0, k as int));
            }
        }
        proof {
            assert(cell@.subrange(0, cell@.len() as int) =~= cell@);
        }
        let limit = width - cell.len();
        let mut pad: usize = 0;
        while pad < limit
            invariant
                pad <= limit,
                out@ == old(out)@ + seq!['|', ' '] + cell@ + blanks(pad as nat),
            decreases limit - pad,
        {
            out.push(' ');
            pad = pad + 1;
            proof {
                assert(out@ =~= old(out)@ + seq!['|', ' '] + cell@ + blanks(pad as nat));
            }
        }
        out.push(' ');
        proof {
            assert(out@ =~= old(out)@ + padded_cell(cell@, width as nat));
        }
    }

    /// One border cell: `|` and two dashes more than the column is wide.
    #[verifier::loop_isolation(false)]
    fn push_border_cell(out: &mut Vec<char>, width: usize)
        ensures
            final(out)@ == old(out)@ + seq!['|'] + dashes(width as nat + 2),
    {
        out.push('|');
        let mut k: usize = 0;
        while k < width
            invariant
                k <= width,
                out@ == old(out)@ + seq!['|'] + dashes(k as nat),
            decreases width - k,
        {
            out.push('-');
            k = k + 1;
            proof {
                assert(out@ =~= old(out)@ + seq!['|'] + dashes(k as nat));
            }
        }
        out.push('-');
        out.push('-');
        proof {
            assert(out@ =~= old(out)@ + seq!['|'] + dashes(width as nat + 2));
        }
    }

    /// The whole border line.
    #[verifier::loop_isolation(false)]
    fn border(&self, out: &mut Vec<char>)
        ensures
            final(out)@ == old(out)@ + border_line(self.model().widths, 0),
    {
        let ghost m = self.model();
        let n = self.cols_width.len();
        let mut j: usize = 0;
        while j < n
            invariant
                j <= n,
                out@ + border_line(m.widths, j as int) == old(out)@ + border_line(m.widths, 0),
            decreases n - j,
        {
            let ghost out_before = out@;
            Self::push_border_cell(out, self.cols_width[j]);
            j = j + 1;
            proof {
                assert(out_before + (seq!['|'] + dashes(m.widths[j - 1] + 2) + border_line(
                    m.widths,
                    j as int,
                )) =~= (out_before + seq!['|'] + dashes(m.widths[j - 1] + 2)) + border_line(
                    m.widths,
                    j as int,
                ));
            }
        }
        out.push('|');
        out.push('\n');
        proof {
            assert(out@ =~= old(out)@ + border_line(m.widths, 0));
        }
    }

    /// One rendered line: chunk `r` of the flattened store.
    #[verifier::loop_isolation(false)]
    fn line(&self, out: &mut Vec<char>, r: usize)
        requires
            self.model().wf(),
            self.model().widths.len() > 0,
            r as int <= self.model().nrows,
        ensures
            final(out)@ == old(out)@ + row_line(
                chunk(self.model(), r as int),
                self.model().widths,
                0,
            ),
    {
        let ghost m = self.model();
        let ghost ch = chunk(m, r as int);
        let n = self.cols_width.len();
        let total = self.rows.len();
        proof {
            let nn = n as int;
            let rr = r as int;
            let nr = m.nrows as int;
            assert(m.widths.len() == nn);
            assert(m.cells.len() == total);
            assert(nn * (1 + nr) == (1 + nr) * nn) by (nonlinear_arith);
            vstd::arithmetic::mul::lemma_mul_inequality(rr + 1, 1 + nr, nn);
            assert((rr + 1) * nn == rr * nn + nn) by (nonlinear_arith);
            assert(rr * nn >= 0) by (nonlinear_arith)
                requires
                    rr >= 0,
                    nn >= 0,
            ;
            assert(ch.len() == nn);
        }
        let base = r * n;
        let mut j: usize = 0;
        while j < n
            invariant
                j <= n,
                out@ + row_line(ch, m.widths, j as int) == old(out)@ + row_line(ch, m.widths, 0),
            decreases n - j,
        {
            proof {
                let nn = n as int;
                let rr = r as int;
                assert(ch[j as int] == m.cells[base + j as int]);
                assert((base + j) as int % nn == j as int) by {
                    assert(nn * rr == rr * nn) by (nonlinear_arith);
                    vstd::arithmetic::div_mod::lemma_mod_multiples_vanish(rr, j as int, nn);
                    vstd::arithmetic::div_mod::lemma_small_mod(j as nat, n as nat);
                };
                assert(m.cells[(base + j) as int].len() <= m.widths[j as int]);
            }
            let ghost out_before = out@;
            Self::push_padded(out, &self.rows[base + j], self.cols_width[j]);
            j = j + 1;
            proof {
                assert(out_before + (padded_cell(ch[j - 1], m.widths[j - 1]) + row_line(
                    ch,
                    m.widths,
                    j as int,
                )) =~= (out_before + padded_cell(ch[j - 1], m.widths[j - 1])) + row_line(
                    ch,
                    m.widths,
                    j as int,
                ));
            }
        }
        out.push('|');
        out.push('\n');
        proof {
            assert(out@ =~= old(out)@ + row_line(ch, m.widths, 0));
        }
    }

    /// Renders the table: the header line, the border, and every body row —
    /// or nothing at all for an empty table, and only the header line when
    /// exactly one body row was accepted.
    #[verifier::loop_isolation(false)]
    pub fn render(&self) -> (r: Vec<char>)
        requires
            self.model().wf(),
        ensures
            r@ == spec_render(self.model()),
    {
        let ghost m = self.model();
        let mut out: Vec<char> = Vec::new();
        if self.rows.len() == 0 {
            return out;
        }
        let total = self.rows.len();
        let n = self.cols_width.len();
        proof {
            assert(m.cells.len() == total);
            let nr = m.nrows as int;
            if n == 0 {
                assert(0int * (1 + nr) == 0) by (nonlinear_arith);
                assert(false);
            }
            assert(1 + nr <= (n as int) * (1 + nr)) by (nonlinear_arith)
                requires
                    n as int >= 1,
                    nr >= 0,
            ;
        }
        self.line(&mut out, 0);
        proof {
            assert(out@ =~= row_line(chunk(m, 0), m.widths, 0));
        }
        if self.rows_len == 1 {
            proof {
                assert(out@ =~= spec_render(m));
            }
            return out;
        }
        self.border(&mut out);
        let mut r: usize = 1;
        while r <= self.rows_len
            invariant
                1 <= r as int <= m.nrows + 1,
                out@ + body_lines(m, r as int) == row_line(chunk(m, 0), m.widths, 0) + border_line(
                    m.widths,
                    0,
                ) + body_lines(m, 1),
            decreases m.nrows + 1 - r,
        {
            let ghost out_before = out@;
            self.line(&mut out, r);
            r = r + 1;
            proof {
                assert(out_before + (row_line(chunk(m, r as int - 1), m.widths, 0) + body_lines(
                    m,
                    r as int,
                )) =~= (out_before + row_line(chunk(m, r as int - 1), m.widths, 0)) + body_lines(
                    m,
                    r as int,
                ));
            }
        }
        proof {
            assert(out@ + body_lines(m, r as int) =~= out@);
            assert(out@ =~= spec_render(m));
        }
        out
    }
}

} // verus!
