use vstd::prelude::*;

verus! {

/// One token of the input: the contents of a quoted cell (the text strictly
/// between the two quotes, as a sequence of code points), or a line break.
/// Whitespace between tokens and the quote characters themselves produce no
/// token.
#[derive(Debug, Clone, PartialEq, Eq)]
pub enum Lexeme {
    Cell(Vec<char>),
    NewLine,
}

/// The mathematical value of a token: a cell is the sequence of code points
/// it carries, a line break carries nothing.
pub ghost enum LexView {
    Cell(Seq<char>),
    NewLine,
}

impl View for Lexeme {
    type V = LexView;

    open spec fn view(&self) -> LexView {
        match self {
            Lexeme::Cell(text) => LexView::Cell(text@),
            Lexeme::NewLine => LexView::NewLine,
        }
    }
}

/// The token values of a whole token list.
pub open spec fn lex_views(toks: Seq<Lexeme>) -> Seq<LexView> {
    toks.map(|i: int, l: Lexeme| l@)
}

/// The cell values of a list of cell texts.
pub open spec fn vecs_view(cells: Seq<Vec<char>>) -> Seq<Seq<char>> {
    cells.map(|i: int, c: Vec<char>| c@)
}

/// A fresh copy of a cell's code points.
#[verifier::loop_isolation(false)]
pub(crate) fn clone_chars(text: &Vec<char>) -> (r: Vec<char>)
    ensures
        r@ == text@,
{
    let mut r: Vec<char> = Vec::new();
    let mut k: usize = 0;
    while k < text.len()
        invariant
            k <= text@.len(),
            r@ == text@.subrange(0, k as int),
        decreases text@.len() - k,
    {
        r.push(text[k]);
        k = k + 1;
        proof {
            assert(r@ =~= text@.subrange(0, k as int));
        }
    }
    proof {
        assert(text@.subrange(0, text@.len() as int) =~= text@);
    }
    r
}

} // verus!
