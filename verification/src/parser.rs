use vstd::prelude::*;

use crate::lexeme::{lex_views, LexView, Lexeme};

verus! {

// ---------------------------------------------------------------------------
// The tokenization, as mathematics: what each step of the tokenizer produces
// at a given position of the text, and the token list of a whole text.
// ---------------------------------------------------------------------------

/// How many bytes UTF-8 uses to encode one code point.
pub open spec fn utf8_len(c: char) -> int {
    if (c as u32) < 0x80 {
        1
    } else if (c as u32) < 0x800 {
        2
    } else if (c as u32) < 0x10000 {
        3
    } else {
        4
    }
}

/// The byte offset of code point `i`, counted from the start of the text.
pub open spec fn byte_offset(s: Seq<char>, i: int) -> int
    decreases i,
{
    if i <= 0 {
        0
    } else {
        byte_offset(s, i - 1) + utf8_len(s[i - 1])
    }
}

/// The characters the tokenizer treats as whitespace: the Unicode white
/// space code points.
pub open spec fn is_space(c: char) -> bool {
    let u = c as u32;
    u == 0x20 || (0x9 <= u && u <= 0xd) || u == 0x85 || u == 0xa0 || u == 0x1680 || (0x2000 <= u
        && u <= 0x200a) || u == 0x2028 || u == 0x2029 || u == 0x202f || u == 0x205f || u == 0x3000
}

/// A character the tokenizer skips silently: whitespace other than a line
/// break, which is a token of its own.
pub open spec fn skippable(c: char) -> bool {
    is_space(c) && c != '\n'
}

/// The first position at or after `i` whose character is not skippable (or
/// the end of the text).
pub open spec fn skip_ws(s: Seq<char>, i: int) -> int
    decreases s.len() - i,
{
    if i < 0 || i >= s.len() || !skippable(s[i]) {
        i
    } else {
        skip_ws(s, i + 1)
    }
}

/// The first position at or after `i` holding a quote, or the text's length
/// if no quote is left.
pub open spec fn find_quote(s: Seq<char>, i: int) -> int
    decreases s.len() - i,
{
    if i < 0 || i >= s.len() {
        s.len() as int
    } else if s[i] == '"' {
        i
    } else {
        find_quote(s, i + 1)
    }
}

/// What one step of the tokenizer produces: the end of the token sequence, a
/// token together with the position after it, or the byte offset of a
/// malformed token.
pub ghost enum TokStep {
    End,
    Tok(LexView, int),
    Fail(int),
}

/// One step of the tokenizer at position `i`: skip whitespace, then yield a
/// line break, a quoted cell, or the byte offset of the offending character
/// (an unquoted non-whitespace character, or an unterminated cell's opening
/// quote).
pub open spec fn token_step(s: Seq<char>, i: int) -> TokStep {
    let p = skip_ws(s, i);
    if p >= s.len() {
        TokStep::End
    } else if s[p] == '\n' {
        TokStep::Tok(LexView::NewLine, p + 1)
    } else if s[p] == '"' {
        let q = find_quote(s, p + 1);
        if q < s.len() {
            TokStep::Tok(LexView::Cell(s.subrange(p + 1, q)), q + 1)
        } else {
            TokStep::Fail(byte_offset(s, p))
        }
    } else {
        TokStep::Fail(byte_offset(s, p))
    }
}

pub proof fn lemma_skip_ws_bounds(s: Seq<char>, i: int)
    requires
        0 <= i <= s.len(),
    ensures
        i <= skip_ws(s, i) <= s.len(),
    decreases s.len() - i,
{
    if i < s.len() && skippable(s[i]) {
        lemma_skip_ws_bounds(s, i + 1);
    }
}

pub proof fn lemma_find_quote_bounds(s: Seq<char>, i: int)
    requires
        0 <= i <= s.len(),
    ensures
        i <= find_quote(s, i) <= s.len(),
        find_quote(s, i) < s.len() ==> s[find_quote(s, i)] == '"',
    decreases s.len() - i,
{
    if i < s.len() && s[i] != '"' {
        lemma_find_quote_bounds(s, i + 1);
    }
}

pub proof fn lemma_byte_offset_mono(s: Seq<char>, i: int, j: int)
    requires
        0 <= i <= j,
    ensures
        byte_offset(s, i) <= byte_offset(s, j),
    decreases j - i,
{
    if i < j {
        lemma_byte_offset_mono(s, i, j - 1);
    }
}

/// A token never ends where it began: each step that yields one moves the
/// cursor forward.
pub proof fn lemma_token_step_advances(s: Seq<char>, i: int)
    requires
        0 <= i <= s.len(),
    ensures
        match token_step(s, i) {
            TokStep::Tok(_, n) => i < n <= s.len(),
            _ => true,
        },
{
    lemma_skip_ws_bounds(s, i);
    let p = skip_ws(s, i);
    if p < s.len() && s[p] != '\n' && s[p] == '"' {
        lemma_find_quote_bounds(s, p + 1);
    }
}

/// The whole token list of the text from position `i` on, or the byte offset
/// of the first malformed token; after an error no further token is produced.
pub open spec fn spec_tokenize(s: Seq<char>, i: int) -> Result<Seq<LexView>, int>
    decreases s.len() - i
        when 0 <= i <= s.len()
        via spec_tokenize_decreases
{
    match token_step(s, i) {
        TokStep::End => Ok(Seq::empty()),
        TokStep::Fail(off) => Err(off),
        TokStep::Tok(t, n) => match spec_tokenize(s, n) {
            Ok(rest) => Ok(seq![t] + rest),
            Err(off) => Err(off),
        },
    }
}

#[via_fn]
proof fn spec_tokenize_decreases(s: Seq<char>, i: int) {
    lemma_token_step_advances(s, i);
}

// ---------------------------------------------------------------------------
// The executable tokenizer.
// ---------------------------------------------------------------------------

fn utf8_width(c: char) -> (r: usize)
    ensures
        r == utf8_len(c),
{
    let u = c as u32;
    if u < 0x80 {
        1
    } else if u < 0x800 {
        2
    } else if u < 0x10000 {
        3
    } else {
        4
    }
}

fn space(c: char) -> (r: bool)
    ensures
        r == is_space(c),
{
    let u = c as u32;
    u == 0x20 || (0x9 <= u && u <= 0xd) || u == 0x85 || u == 0xa0 || u == 0x1680 || (0x2000 <= u
        && u <= 0x200a) || u == 0x2028 || u == 0x2029 || u == 0x202f || u == 0x205f || u == 0x3000
}

/// The tokenizer: a forward-only cursor over the input text. It yields each
/// token in input order and, after reporting one malformed token, yields
/// nothing further.
pub struct Parser {
    input: Vec<char>,
    pos: usize,
    byte_pos: usize,
    running: bool,
}

impl Parser {
    /// The input text, as code points.
    pub closed spec fn text(&self) -> Seq<char> {
        self.input@
    }

    /// How many code points have been consumed.
    pub closed spec fn pos(&self) -> int {
        self.pos as int
    }

    /// False once a malformed token has been reported.
    pub closed spec fn running(&self) -> bool {
        self.running
    }

    /// The cursor is inside the text, the byte position mirrors it, and the
    /// whole text's byte length fits the machine.
    pub closed spec fn wf(&self) -> bool {
        &&& self.pos as int <= self.input@.len()
        &&& self.byte_pos as int == byte_offset(self.input@, self.pos as int)
        &&& byte_offset(self.input@, self.input@.len() as int) <= usize::MAX
    }

    pub fn new(input: Vec<char>) -> (r: Parser)
        requires
            byte_offset(input@, input@.len() as int) <= usize::MAX,
        ensures
            r.wf(),
            r.text() == input@,
            r.pos() == 0,
            r.running(),
    {
        Parser { input, pos: 0, byte_pos: 0, running: true }
    }

    /// Produces the next token, or the byte offset of the first malformed
    /// token, or `None` at the end of the text; after an error the token
    /// sequence is permanently exhausted.
    #[verifier::loop_isolation(false)]
    pub fn next(&mut self) -> (r: Option<Result<Lexeme, usize>>)
        requires
            old(self).wf(),
        ensures
            final(self).wf(),
            final(self).text() == old(self).text(),
            !old(self).running() ==> r is None && !final(self).running(),
            old(self).running() ==> match token_step(old(self).text(), old(self).pos()) {
                TokStep::End => r is None && final(self).running() && final(self).pos() == skip_ws(
                    old(self).text(),
                    old(self).pos(),
                ),
                TokStep::Tok(t, n) => (r matches Some(Ok(l)) && l@ == t) && final(self).running()
                    && final(self).pos() == n,
                TokStep::Fail(off) => (r matches Some(Err(e)) && e as int == off)
                    && !final(self).running(),
            },
    {
        if !self.running {
            return None;
        }
        let ghost s = self.input@;
        let ghost p0 = self.pos as int;
        while self.pos < self.input.len() && self.input[self.pos] != '\n' && space(
            self.input[self.pos],
        )
            invariant
                self.running,
                self.input@ == s,
                p0 <= self.pos as int <= s.len(),
                self.byte_pos as int == byte_offset(s, self.pos as int),
                byte_offset(s, s.len() as int) <= usize::MAX,
                skip_ws(s, p0) == skip_ws(s, self.pos as int),
            decreases s.len() - self.pos,
        {
            proof {
                lemma_byte_offset_mono(s, self.pos as int + 1, s.len() as int);
            }
            let c = self.input[self.pos];
            self.byte_pos = self.byte_pos + utf8_width(c);
            self.pos = self.pos + 1;
        }
        let ghost p = self.pos as int;
        assert(skip_ws(s, p) == p);
        if self.pos == self.input.len() {
            return None;
        }
        let c = self.input[self.pos];
        if c == '\n' {
            proof {
                lemma_byte_offset_mono(s, p + 1, s.len() as int);
            }
            self.byte_pos = self.byte_pos + utf8_width(c);
            self.pos = self.pos + 1;
            return Some(Ok(Lexeme::NewLine));
        }
        if c != '"' {
            self.running = false;
            return Some(Err(self.byte_pos));
        }
        // A quote opens a cell: its contents run to the next quote. If the
        // text ends first, the cell is malformed and the error carries the
        // opening quote's byte offset.
        let err_off = self.byte_pos;
        proof {
            lemma_byte_offset_mono(s, p + 1, s.len() as int);
        }
        self.byte_pos = self.byte_pos + utf8_width(c);
        self.pos = self.pos + 1;
        let mut text: Vec<char> = Vec::new();
        while self.pos < self.input.len() && self.input[self.pos] != '"'
            invariant
                self.running,
                self.input@ == s,
                p + 1 <= self.pos as int <= s.len(),
                self.byte_pos as int == byte_offset(s, self.pos as int),
                byte_offset(s, s.len() as int) <= usize::MAX,
                find_quote(s, p + 1) == find_quote(s, self.pos as int),
                text@ == s.subrange(p + 1, self.pos as int),
            decreases s.len() - self.pos,
        {
            proof {
                lemma_byte_offset_mono(s, self.pos as int + 1, s.len() as int);
            }
            let c2 = self.input[self.pos];
            text.push(c2);
            self.byte_pos = self.byte_pos + utf8_width(c2);
            self.pos = self.pos + 1;
            proof {
                assert(text@ =~= s.subrange(p + 1, self.pos as int));
            }
        }
        if self.pos == self.input.len() {
            self.running = false;
            return Some(Err(err_off));
        }
        proof {
            lemma_byte_offset_mono(s, self.pos as int + 1, s.len() as int);
        }
        let c3 = self.input[self.pos];
        self.byte_pos = self.byte_pos + utf8_width(c3);
        self.pos = self.pos + 1;
        Some(Ok(Lexeme::Cell(text)))
    }
}

/// Runs the tokenizer over a whole text: all its tokens in input order, or
/// the byte offset of the first malformed token and nothing else.
#[verifier::loop_isolation(false)]
pub fn tokenize(input: Vec<char>) -> (r: Result<Vec<Lexeme>, usize>)
    requires
        byte_offset(input@, input@.len() as int) <= usize::MAX,
    ensures
        match r {
            Ok(toks) => spec_tokenize(input@, 0) == Ok::<Seq<LexView>, int>(lex_views(toks@)),
            Err(off) => spec_tokenize(input@, 0) == Err::<Seq<LexView>, int>(off as int),
        },
{
    let ghost s = input@;
    let mut parser = Parser::new(input);
    let mut toks: Vec<Lexeme> = Vec::new();
    loop
        invariant
            parser.wf(),
            parser.running(),
            parser.text() == s,
            0 <= parser.pos() <= s.len(),
            spec_tokenize(s, 0) == match spec_tokenize(s, parser.pos()) {
                Ok(rest) => Ok::<Seq<LexView>, int>(lex_views(toks@) + rest),
                Err(off) => Err::<Seq<LexView>, int>(off),
            },
        decreases s.len() - parser.pos(),
    {
        let ghost p_before = parser.pos();
        proof {
            lemma_token_step_advances(s, p_before);
        }
        match parser.next() {
            None => {
                proof {
                    assert(token_step(s, p_before) is End);
                    assert(spec_tokenize(s, p_before) == Ok::<Seq<LexView>, int>(Seq::empty()));
                    assert(lex_views(toks@) + Seq::<LexView>::empty() =~= lex_views(toks@));
                }
                return Ok(toks);
            },
            Some(Ok(l)) => {
                proof {
                    let n = match token_step(s, p_before) {
                        TokStep::Tok(_, n) => n,
                        _ => 0,
                    };
                    assert(lex_views(toks@.push(l)) =~= lex_views(toks@) + seq![l@]);
                    match spec_tokenize(s, n) {
                        Ok(rest) => {
                            assert((lex_views(toks@) + seq![l@]) + rest =~= lex_views(toks@) + (
                            seq![l@] + rest));
                        },
                        Err(_) => {},
                    }
                }
                toks.push(l);
            },
            Some(Err(off)) => {
                proof {
                    assert(token_step(s, p_before) matches TokStep::Fail(o) && off as int == o);
                    assert(spec_tokenize(s, p_before) == Err::<Seq<LexView>, int>(off as int));
                }
                return Err(off);
            },
        }
    }
}

} // verus!
