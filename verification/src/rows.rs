use vstd::prelude::*;

use crate::lexeme::{clone_chars, lex_views, vecs_view, LexView, Lexeme};

verus! {

// ---------------------------------------------------------------------------
// The row splitting, as mathematics: the header cells of a token list, and
// the cells and end position of each normalized body row.
// ---------------------------------------------------------------------------

/// The header: every cell before the first line break (or the end of the
/// token list).
pub open spec fn header_cells(ts: Seq<LexView>, i: int) -> Seq<Seq<char>>
    decreases ts.len() - i,
{
    if i < 0 || i >= ts.len() {
        Seq::empty()
    } else {
        match ts[i] {
            LexView::NewLine => Seq::empty(),
            LexView::Cell(c) => seq![c] + header_cells(ts, i + 1),
        }
    }
}

/// The position after the header: past its terminating line break, or the
/// end of the token list.
pub open spec fn header_end(ts: Seq<LexView>, i: int) -> int
    decreases ts.len() - i,
{
    if i < 0 || i >= ts.len() {
        i
    } else {
        match ts[i] {
            LexView::NewLine => i + 1,
            LexView::Cell(c) => header_end(ts, i + 1),
        }
    }
}

/// The first position after the next line break, or the end of the token
/// list if no line break is left.
pub open spec fn drain_end(ts: Seq<LexView>, i: int) -> int
    decreases ts.len() - i,
{
    if i < 0 || i >= ts.len() {
        ts.len() as int
    } else {
        match ts[i] {
            LexView::NewLine => i + 1,
            LexView::Cell(c) => drain_end(ts, i + 1),
        }
    }
}

/// The cell values a row cursor still yields from position `i` with `left`
/// columns to fill: cell tokens supply values; once a line break (or the end
/// of the input) is met, `filling` is set and the remaining columns are
/// filled with the empty text. When the last column is supplied by a cell,
/// the rest of that input line is drained silently.
pub open spec fn row_vals(ts: Seq<LexView>, i: int, left: nat, filling: bool) -> Seq<Seq<char>>
    decreases left,
{
    if left == 0 {
        Seq::empty()
    } else if filling || i < 0 || i >= ts.len() {
        seq![Seq::<char>::empty()] + row_vals(ts, i, (left - 1) as nat, true)
    } else {
        match ts[i] {
            LexView::NewLine => seq![Seq::<char>::empty()] + row_vals(ts, i + 1, (left - 1) as nat, true),
            LexView::Cell(c) => if left == 1 {
                seq![c]
            } else {
                seq![c] + row_vals(ts, i + 1, (left - 1) as nat, false)
            },
        }
    }
}

/// The position of the shared cursor once a row cursor in state
/// `(i, left, filling)` has been fully drained.
pub open spec fn row_end(ts: Seq<LexView>, i: int, left: nat, filling: bool) -> int
    decreases left,
{
    if left == 0 {
        i
    } else if filling || i < 0 || i >= ts.len() {
        row_end(ts, i, (left - 1) as nat, true)
    } else {
        match ts[i] {
            LexView::NewLine => row_end(ts, i + 1, (left - 1) as nat, true),
            LexView::Cell(c) => if left == 1 {
                drain_end(ts, i + 1)
            } else {
                row_end(ts, i + 1, (left - 1) as nat, false)
            },
        }
    }
}

pub proof fn lemma_drain_end_bounds(ts: Seq<LexView>, i: int)
    requires
        0 <= i <= ts.len(),
    ensures
        i <= drain_end(ts, i) <= ts.len(),
    decreases ts.len() - i,
{
    if i < ts.len() {
        match ts[i] {
            LexView::NewLine => {},
            LexView::Cell(c) => lemma_drain_end_bounds(ts, i + 1),
        }
    }
}

/// A row cursor never moves the shared cursor backwards, and draining it
/// from a position inside the list consumes at least one token.
pub proof fn lemma_row_end_bounds(ts: Seq<LexView>, i: int, left: nat, filling: bool)
    requires
        0 <= i <= ts.len(),
    ensures
        i <= row_end(ts, i, left, filling) <= ts.len(),
        !filling && left > 0 && i < ts.len() ==> i + 1 <= row_end(ts, i, left, filling),
    decreases left,
{
    if left > 0 {
        if filling || i >= ts.len() {
            lemma_row_end_bounds(ts, i, (left - 1) as nat, true);
        } else {
            match ts[i] {
                LexView::NewLine => lemma_row_end_bounds(ts, i + 1, (left - 1) as nat, true),
                LexView::Cell(c) => if left == 1 {
                    lemma_drain_end_bounds(ts, i + 1);
                } else {
                    lemma_row_end_bounds(ts, i + 1, (left - 1) as nat, false);
                },
            }
        }
    }
}

/// All body rows from position `i` on, each normalized to `n` columns. With
/// no columns at all there are no rows to produce.
pub open spec fn body_rows(ts: Seq<LexView>, i: int, n: nat) -> Seq<Seq<Seq<char>>>
    decreases ts.len() - i
        when 0 <= i <= ts.len()
        via body_rows_decreases
{
    if n == 0 || i >= ts.len() {
        Seq::empty()
    } else {
        seq![row_vals(ts, i, n, false)] + body_rows(ts, row_end(ts, i, n, false), n)
    }
}

#[via_fn]
proof fn body_rows_decreases(ts: Seq<LexView>, i: int, n: nat) {
    if n > 0 && i < ts.len() {
        lemma_row_end_bounds(ts, i, n, false);
    }
}

// ---------------------------------------------------------------------------
// The executable row splitter. One cursor over the token list is shared by
// the header view, the tail view and each row cursor; exactly one of them
// holds it at a time, and hand-offs are explicit moves.
// ---------------------------------------------------------------------------

/// The shared cursor: the token list, how far it has been read, and the
/// column count the header view has recorded.
struct Inner {
    toks: Vec<Lexeme>,
    pos: usize,
    n_cols: usize,
}

impl Inner {
    fn new(toks: Vec<Lexeme>) -> (r: Inner)
        ensures
            r.toks@ == toks@,
            r.pos == 0,
            r.n_cols == 0,
    {
        Inner { toks, pos: 0, n_cols: 0 }
    }
}

/// A token list about to be split into a header view and a tail view.
pub struct Rows {
    inner: Inner,
}

impl Rows {
    /// The token list.
    pub closed spec fn toks(&self) -> Seq<Lexeme> {
        self.inner.toks@
    }

    /// Nothing has been read yet and no column has been recorded.
    pub closed spec fn wf(&self) -> bool {
        self.inner.pos == 0 && self.inner.n_cols == 0
    }

    pub fn new(toks: Vec<Lexeme>) -> (r: Rows)
        ensures
            r.wf(),
            r.toks() == toks@,
    {
        Rows { inner: Inner::new(toks) }
    }

    /// Splits into the two cooperating views. The header view holds the
    /// cursor first; the tail view starts empty and claims the cursor when
    /// the drained header view is finished into it.
    pub fn split(self) -> (r: (Head, Tail))
        requires
            self.wf(),
        ensures
            r.0.wf(),
            !r.0.done(),
            r.0.toks() == self.toks(),
            r.0.pos() == 0,
            r.0.n_cols() == 0,
            !r.1.claimed(),
    {
        (Head { inner: self.inner, done: false }, Tail { inner: None })
    }
}

/// The header view: yields each header cell in order and records the column
/// count; a line break or the end of the input ends it for good.
pub struct Head {
    inner: Inner,
    done: bool,
}

impl Head {
    /// The token list under the cursor.
    pub closed spec fn toks(&self) -> Seq<Lexeme> {
        self.inner.toks@
    }

    /// The cursor's position in the token list.
    pub closed spec fn pos(&self) -> int {
        self.inner.pos as int
    }

    /// How many header cells have been yielded.
    pub closed spec fn n_cols(&self) -> int {
        self.inner.n_cols as int
    }

    /// True once the header's terminator has been seen: nothing further is
    /// yielded.
    pub closed spec fn done(&self) -> bool {
        self.done
    }

    pub open spec fn wf(&self) -> bool {
        &&& self.pos() <= self.toks().len()
        &&& self.n_cols() <= self.pos()
    }

    /// Yields the next header cell; a line break or the end of the token
    /// list ends the header view instead, consuming only that terminator.
    pub fn next(&mut self) -> (r: Option<Vec<char>>)
        requires
            old(self).wf(),
        ensures
            final(self).wf(),
            final(self).toks() == old(self).toks(),
            old(self).done() ==> r is None && *final(self) == *old(self),
            !old(self).done() ==> {
                let ts = lex_views(old(self).toks());
                if old(self).pos() >= ts.len() {
                    r is None && final(self).done() && final(self).pos() == old(self).pos()
                        && final(self).n_cols() == old(self).n_cols()
                } else {
                    match ts[old(self).pos()] {
                        LexView::NewLine => r is None && final(self).done() && final(self).pos()
                            == old(self).pos() + 1 && final(self).n_cols() == old(self).n_cols(),
                        LexView::Cell(c) => (r matches Some(cell) && cell@ == c)
                            && !final(self).done() && final(self).pos() == old(self).pos() + 1
                            && final(self).n_cols() == old(self).n_cols() + 1,
                    }
                }
            },
    {
        if self.done {
            return None;
        }
        if self.inner.pos >= self.inner.toks.len() {
            self.done = true;
            return None;
        }
        let cell = match &self.inner.toks[self.inner.pos] {
            Lexeme::Cell(text) => Some(clone_chars(text)),
            Lexeme::NewLine => None,
        };
        self.inner.pos = self.inner.pos + 1;
        match cell {
            Some(cell) => {
                self.inner.n_cols = self.inner.n_cols + 1;
                Some(cell)
            },
            None => {
                self.done = true;
                None
            },
        }
    }

    /// Pulls every remaining header cell, leaving the header view done.
    #[verifier::loop_isolation(false)]
    pub fn drain(&mut self) -> (r: Vec<Vec<char>>)
        requires
            old(self).wf(),
            !old(self).done(),
        ensures
            final(self).wf(),
            final(self).done(),
            final(self).toks() == old(self).toks(),
            vecs_view(r@) == header_cells(lex_views(old(self).toks()), old(self).pos()),
            final(self).pos() == header_end(lex_views(old(self).toks()), old(self).pos()),
            final(self).n_cols() == old(self).n_cols() + r@.len(),
    {
        let ghost ts = lex_views(old(self).toks());
        let mut cells: Vec<Vec<char>> = Vec::new();
        while !self.done
            invariant
                self.wf(),
                self.toks() == old(self).toks(),
                old(self).pos() <= self.pos() <= ts.len(),
                self.n_cols() == old(self).n_cols() + cells@.len(),
                !self.done() ==> vecs_view(cells@) + header_cells(ts, self.pos())
                    == header_cells(ts, old(self).pos()),
                !self.done() ==> header_end(ts, self.pos()) == header_end(ts, old(self).pos()),
                self.done() ==> vecs_view(cells@) == header_cells(ts, old(self).pos()),
                self.done() ==> self.pos() == header_end(ts, old(self).pos()),
            decreases ts.len() - self.pos() + (if self.done() { 0int } else { 1int }),
        {
            let ghost pos0 = self.pos();
            match self.next() {
                None => {
                    proof {
                        assert(header_cells(ts, pos0) =~= Seq::<Seq<char>>::empty());
                        assert(vecs_view(cells@) + header_cells(ts, pos0) =~= vecs_view(cells@));
                    }
                },
                Some(cell) => {
                    proof {
                        let c = cell@;
                        assert(ts[pos0] == LexView::Cell(c));
                        assert(vecs_view(cells@.push(cell)) =~= vecs_view(cells@) + seq![c]);
                        assert((vecs_view(cells@) + seq![c]) + header_cells(ts, pos0 + 1)
                            =~= vecs_view(cells@) + (seq![c] + header_cells(ts, pos0 + 1)));
                    }
                    cells.push(cell);
                },
            }
        }
        cells
    }

    /// Hands the cursor, with its recorded column count, over to the tail
    /// view. The header must have been fully drained first.
    pub fn finish(self, tail: &mut Tail)
        requires
            self.wf(),
            self.done(),
            !old(tail).claimed(),
        ensures
            final(tail).wf(),
            final(tail).claimed(),
            final(tail).toks() == self.toks(),
            final(tail).pos() == self.pos(),
            final(tail).n_cols() == self.n_cols(),
    {
        tail.inner = Some(self.inner);
    }
}

/// The tail view: yields the body rows, one row cursor at a time, once the
/// drained header view has been finished into it.
pub struct Tail {
    inner: Option<Inner>,
}

impl Tail {
    /// Whether the tail view holds the shared cursor right now.
    pub closed spec fn claimed(&self) -> bool {
        self.inner is Some
    }

    pub closed spec fn toks(&self) -> Seq<Lexeme> {
        match self.inner {
            Some(inner) => inner.toks@,
            None => Seq::empty(),
        }
    }

    pub closed spec fn pos(&self) -> int {
        match self.inner {
            Some(inner) => inner.pos as int,
            None => 0,
        }
    }

    pub closed spec fn n_cols(&self) -> int {
        match self.inner {
            Some(inner) => inner.n_cols as int,
            None => 0,
        }
    }

    pub open spec fn wf(&self) -> bool {
        self.pos() <= self.toks().len()
    }

    /// Starts the next body row: `None` once the token list is exhausted,
    /// else a row cursor holding the shared cursor, which must be drained
    /// and finished back into this tail view before the next call.
    pub fn row(&mut self) -> (r: Option<TailRow>)
        requires
            old(self).wf(),
            old(self).claimed(),
        ensures
            final(self).wf(),
            old(self).pos() >= old(self).toks().len() ==> r is None && *final(self) == *old(self),
            old(self).pos() < old(self).toks().len() ==> (r matches Some(rc) && {
                &&& !final(self).claimed()
                &&& rc.wf()
                &&& rc.toks() == old(self).toks()
                &&& rc.pos() == old(self).pos()
                &&& rc.n_cols() == old(self).n_cols()
                &&& rc.left() == old(self).n_cols()
                &&& !rc.filling()
            }),
    {
        let has_more = match &self.inner {
            Some(inner) => inner.pos < inner.toks.len(),
            None => false,
        };
        if !has_more {
            return None;
        }
        let inner = match self.inner.take() {
            Some(inner) => inner,
            None => {
                return None;
            },
        };
        let left = inner.n_cols;
        Some(TailRow { inner, left, filling: false })
    }
}

/// One body row: yields exactly as many cell values as the header recorded
/// columns, normalizing short and long input lines.
pub struct TailRow {
    inner: Inner,
    left: usize,
    filling: bool,
}

impl TailRow {
    pub closed spec fn toks(&self) -> Seq<Lexeme> {
        self.inner.toks@
    }

    pub closed spec fn pos(&self) -> int {
        self.inner.pos as int
    }

    pub closed spec fn n_cols(&self) -> int {
        self.inner.n_cols as int
    }

    /// How many columns this row still has to yield.
    pub closed spec fn left(&self) -> int {
        self.left as int
    }

    /// True once a line break (or the end of the input) was met before all
    /// columns were supplied: the rest are filled with empty text.
    pub closed spec fn filling(&self) -> bool {
        self.filling
    }

    pub open spec fn wf(&self) -> bool {
        self.pos() <= self.toks().len()
    }

    /// The exact number of cell values still to be pulled.
    pub fn len(&self) -> (r: usize)
        ensures
            r == self.left(),
    {
        self.left
    }

    /// Yields the next cell value of this row; `None` exactly when the row
    /// is exhausted. A cell token supplies its text; on a line break or at
    /// the end of the input the value is empty text, as it is for every
    /// column after that; a cell that fills the last column drains the rest
    /// of its input line silently.
    #[verifier::loop_isolation(false)]
    pub fn next(&mut self) -> (r: Option<Vec<char>>)
        requires
            old(self).wf(),
        ensures
            final(self).wf(),
            final(self).toks() == old(self).toks(),
            final(self).n_cols() == old(self).n_cols(),
            old(self).left() == 0 ==> r is None && *final(self) == *old(self),
            old(self).left() > 0 ==> final(self).left() == old(self).left() - 1 && {
                let ts = lex_views(old(self).toks());
                if old(self).filling() || old(self).pos() >= ts.len() {
                    (r matches Some(cell) && cell@ == Seq::<char>::empty())
                        && final(self).filling() && final(self).pos() == old(self).pos()
                } else {
                    match ts[old(self).pos()] {
                        LexView::NewLine => (r matches Some(cell) && cell@
                            == Seq::<char>::empty()) && final(self).filling() && final(self).pos()
                            == old(self).pos() + 1,
                        LexView::Cell(c) => (r matches Some(cell) && cell@ == c)
                            && !final(self).filling() && final(self).pos() == (if old(self).left()
                            == 1 {
                            drain_end(ts, old(self).pos() + 1)
                        } else {
                            old(self).pos() + 1
                        }),
                    }
                }
            },
    {
        if self.left == 0 {
            return None;
        }
        self.left = self.left - 1;
        if self.filling || self.inner.pos >= self.inner.toks.len() {
            self.filling = true;
            return Some(Vec::new());
        }
        let ghost ts = lex_views(old(self).toks());
        let cell = match &self.inner.toks[self.inner.pos] {
            Lexeme::Cell(text) => Some(clone_chars(text)),
            Lexeme::NewLine => None,
        };
        self.inner.pos = self.inner.pos + 1;
        let cell = match cell {
            Some(cell) => cell,
            None => {
                self.filling = true;
                return Some(Vec::new());
            },
        };
        if self.left == 0 {
            // The last column is supplied: drain the rest of this input
            // line, past its line break, so that the cursor lands on the
            // next row.
            let ghost start = self.inner.pos as int;
            proof {
                assert(ts.len() == self.inner.toks@.len());
            }
            let mut scanning = true;
            while scanning
                invariant
                    self.wf(),
                    self.toks() == old(self).toks(),
                    self.n_cols() == old(self).n_cols(),
                    self.left() == 0,
                    !self.filling(),
                    start <= self.pos() <= ts.len(),
                    scanning ==> drain_end(ts, start) == drain_end(ts, self.pos()),
                    !scanning ==> self.pos() == drain_end(ts, start),
                decreases ts.len() - self.pos() + (if scanning { 1int } else { 0int }),
            {
                if self.inner.pos >= self.inner.toks.len() {
                    scanning = false;
                } else {
                    let nl = match &self.inner.toks[self.inner.pos] {
                        Lexeme::Cell(_) => false,
                        Lexeme::NewLine => true,
                    };
                    self.inner.pos = self.inner.pos + 1;
                    if nl {
                        scanning = false;
                    }
                }
            }
        }
        Some(cell)
    }

    /// Pulls every remaining cell value of this row and hands the shared
    /// cursor back to the tail view.
    #[verifier::loop_isolation(false)]
    pub fn drain(self, tail: &mut Tail) -> (r: Vec<Vec<char>>)
        requires
            self.wf(),
            !old(tail).claimed(),
        ensures
            final(tail).wf(),
            final(tail).claimed(),
            final(tail).toks() == self.toks(),
            final(tail).n_cols() == self.n_cols(),
            final(tail).pos() == row_end(
                lex_views(self.toks()),
                self.pos(),
                self.left() as nat,
                self.filling(),
            ),
            r@.len() == self.left(),
            vecs_view(r@) == row_vals(
                lex_views(self.toks()),
                self.pos(),
                self.left() as nat,
                self.filling(),
            ),
    {
        let ghost ts = lex_views(self.toks());
        let ghost p_init = self.pos();
        let ghost l_init = self.left() as nat;
        let ghost f_init = self.filling();
        let mut row = self;
        let mut cells: Vec<Vec<char>> = Vec::new();
        while row.left > 0
            invariant
                row.wf(),
                row.toks() == self.toks(),
                row.n_cols() == self.n_cols(),
                0 <= row.pos() <= ts.len(),
                cells@.len() + row.left() == l_init,
                vecs_view(cells@) + row_vals(ts, row.pos(), row.left() as nat, row.filling())
                    == row_vals(ts, p_init, l_init, f_init),
                row_end(ts, row.pos(), row.left() as nat, row.filling()) == row_end(
                    ts,
                    p_init,
                    l_init,
                    f_init,
                ),
            decreases row.left(),
        {
            let ghost pos0 = row.pos();
            let ghost left0 = row.left();
            let ghost fill0 = row.filling();
            match row.next() {
                None => {
                    proof {
                        assert(false);
                    }
                },
                Some(cell) => {
                    proof {
                        let c = cell@;
                        let rest = row_vals(ts, row.pos(), row.left() as nat, row.filling());
                        assert(row_vals(ts, pos0, left0 as nat, fill0) == seq![c] + rest);
                        assert(vecs_view(cells@.push(cell)) =~= vecs_view(cells@) + seq![c]);
                        assert((vecs_view(cells@) + seq![c]) + rest =~= vecs_view(cells@) + (
                        seq![c] + rest));
                    }
                    cells.push(cell);
                },
            }
        }
        proof {
            assert(row_vals(ts, row.pos(), 0, row.filling()) =~= Seq::<Seq<char>>::empty());
            assert(vecs_view(cells@) + Seq::<Seq<char>>::empty() =~= vecs_view(cells@));
        }
        row.finish(tail);
        cells
    }

    /// Hands the shared cursor back to the tail view. The row must have been
    /// fully drained: stopping short is a caller error this contract rules
    /// out.
    pub fn finish(self, tail: &mut Tail)
        requires
            self.wf(),
            self.left() == 0,
            !old(tail).claimed(),
        ensures
            final(tail).wf(),
            final(tail).claimed(),
            final(tail).toks() == self.toks(),
            final(tail).pos() == self.pos(),
            final(tail).n_cols() == self.n_cols(),
    {
        tail.inner = Some(self.inner);
    }
}

} // verus!
