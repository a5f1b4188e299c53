use vstd::prelude::*;

use crate::lexeme::{lex_views, vecs_view, LexView};
use crate::parser::{byte_offset, spec_tokenize, tokenize};
use crate::rows::{body_rows, header_cells, header_end, lemma_row_end_bounds, row_end, row_vals, Rows};
use crate::table::{model_fold, model_head, model_tail, spec_render, Table, TableModel};

verus! {

/// The table a token list builds: the header fixes the column count, and
/// every body row, normalized to that count, is appended in order. With an
/// empty header there is nothing to normalize against and no body row is
/// read.
pub open spec fn table_of_tokens(ts: Seq<LexView>) -> TableModel {
    let header = header_cells(ts, 0);
    let m0 = model_head(header);
    if header.len() == 0 {
        m0
    } else {
        model_fold(m0, body_rows(ts, header_end(ts, 0), header.len() as nat))
    }
}

/// What the whole pipeline produces for an input text: the rendered table,
/// or the byte offset of the first malformed token.
pub open spec fn spec_format(s: Seq<char>) -> Result<Seq<char>, int> {
    match spec_tokenize(s, 0) {
        Ok(ts) => Ok(spec_render(table_of_tokens(ts))),
        Err(off) => Err(off),
    }
}

/// Runs the whole pipeline over one input text: tokenize it, split the
/// tokens into the header and the normalized body rows, accumulate the
/// table, and render it — or report the byte offset of the first malformed
/// token, producing no table at all.
#[verifier::loop_isolation(false)]
pub fn format_table(input: Vec<char>) -> (r: Result<Vec<char>, usize>)
    requires
        byte_offset(input@, input@.len() as int) <= usize::MAX,
    ensures
        match r {
            Ok(text) => spec_format(input@) == Ok::<Seq<char>, int>(text@),
            Err(off) => spec_format(input@) == Err::<Seq<char>, int>(off as int),
        },
{
    let toks = match tokenize(input) {
        Ok(toks) => toks,
        Err(off) => {
            return Err(off);
        },
    };
    let ghost ts = lex_views(toks@);
    let rows = Rows::new(toks);
    let (mut head, mut tail) = rows.split();
    let header = head.drain();
    let n_cols = header.len();
    head.finish(&mut tail);
    proof {
        assert(vecs_view(header@) == header_cells(ts, 0));
        assert(n_cols as int == header_cells(ts, 0).len());
        assert(ts.len() == tail.toks().len());
    }
    let mut table = Table::new().head(header);
    let ghost target = table_of_tokens(ts);
    if n_cols > 0 {
        let mut more = true;
        while more
            invariant
                tail.wf(),
                tail.claimed(),
                lex_views(tail.toks()) == ts,
                tail.n_cols() == n_cols,
                0 <= tail.pos() <= ts.len(),
                table.model().wf(),
                table.model().widths.len() == n_cols,
                model_fold(table.model(), body_rows(ts, tail.pos(), n_cols as nat)) == target,
                !more ==> tail.pos() == ts.len(),
            decreases ts.len() - tail.pos() + (if more {
                1int
            } else {
                0int
            }),
        {
            let ghost pos0 = tail.pos();
            let ghost model0 = table.model();
            match tail.row() {
                None => {
                    more = false;
                },
                Some(rc) => {
                    proof {
                        lemma_row_end_bounds(ts, pos0, n_cols as nat, false);
                    }
                    let cells = rc.drain(&mut tail);
                    proof {
                        let brows = body_rows(ts, pos0, n_cols as nat);
                        assert(brows == seq![row_vals(ts, pos0, n_cols as nat, false)]
                            + body_rows(ts, row_end(ts, pos0, n_cols as nat, false), n_cols as nat));
                        assert(brows[0] == row_vals(ts, pos0, n_cols as nat, false));
                        assert(brows.drop_first() =~= body_rows(
                            ts,
                            row_end(ts, pos0, n_cols as nat, false),
                            n_cols as nat,
                        ));
                        assert(model_fold(model0, brows) == model_fold(
                            model_tail(model0, vecs_view(cells@)),
                            body_rows(ts, row_end(ts, pos0, n_cols as nat, false), n_cols as nat),
                        ));
                    }
                    table = table.tail(cells);
                },
            }
        }
        proof {
            assert(body_rows(ts, tail.pos(), n_cols as nat) =~= Seq::<Seq<Seq<char>>>::empty());
            assert(table.model() == target);
        }
    }
    let text = table.render();
    Ok(text)
}

} // verus!
