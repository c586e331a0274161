//! A restartable, finite, lazy sequence of tokens over one source text, with
//! exactly one token of lookahead. Nothing is buffered: each pull scans the
//! next lexeme from the retained text, so two streams built over the same
//! text always yield the same sequence. A lexical error is surfaced as an
//! explicit element and the stream does not advance past it.

use vstd::prelude::*;

use crate::lex::{scan_token, scan_ws, spec_lex, LexError};
use crate::lex::{lemma_next_token_bounds, lemma_skip_skip, lemma_ws_count, ws_count};
use crate::token::{Token, TokenModel};
use vstd::string::StrSliceExecFns;

verus! {

/// What one pull of the stream may hand back, given the tokens and the
/// pending lexical error of the text still ahead: the first remaining token,
/// the lexical error once no token is left before it, or nothing at the
/// clean end of the text.
pub open spec fn stream_step(
    toks: Seq<TokenModel>,
    err: Option<int>,
    r: Option<Result<Token, LexError>>,
) -> bool {
    match r {
        None => toks.len() == 0 && err is None,
        Some(Ok(t)) => toks.len() > 0 && t@ == toks[0],
        Some(Err(e)) => toks.len() == 0 && err == Some(e.pos as int),
    }
}

pub struct TokenStream {
    src: String,
    pos: usize,
}

impl TokenStream {
    /// The scan position stays inside the retained text.
    pub closed spec fn wf(&self) -> bool {
        self.pos <= self.src@.len() && self.src@.len() <= usize::MAX
    }

    /// The text not yet consumed.
    pub closed spec fn remaining(&self) -> Seq<char> {
        self.src@.skip(self.pos as int)
    }

    /// The tokens still ahead of the stream, in order.
    pub closed spec fn toks(&self) -> Seq<TokenModel> {
        spec_lex(self.remaining()).0
    }

    /// The position (in the whole text) of the lexical error the stream
    /// will run into after its remaining tokens, if any.
    pub closed spec fn lex_err(&self) -> Option<int> {
        match spec_lex(self.remaining()).1 {
            Some(p) => Some(self.pos + p),
            None => None,
        }
    }

    /// A fresh stream over `src` yields exactly the tokens of `src`: the
    /// tokenizer holds no state across constructions, so streams over equal
    /// text are interchangeable.
    pub fn new(src: &str) -> (s: TokenStream)
        ensures
            s.wf(),
            s.toks() == spec_lex(src@).0,
            s.lex_err() == spec_lex(src@).1,
    {
        let owned = src.to_owned();
        let _len: usize = owned.as_str().unicode_len();
        let s = TokenStream { src: owned, pos: 0 };
        proof {
            assert(s.remaining() =~= src@);
        }
        s
    }

    /// Pulls the next token. The lexical error, once reached, is returned on
    /// this and on every later pull: the stream never advances past it and
    /// never drops input silently.
    pub fn next(&mut self) -> (r: Option<Result<Token, LexError>>)
        requires
            old(self).wf(),
        ensures
            final(self).wf(),
            stream_step(old(self).toks(), old(self).lex_err(), r),
            (match r {
                Some(Ok(t)) => final(self).toks() == old(self).toks().skip(1)
                    && final(self).lex_err() == old(self).lex_err(),
                _ => final(self).toks() == old(self).toks()
                    && final(self).lex_err() == old(self).lex_err(),
            }),
    {
        let ghost rest = self.remaining();
        let len = self.src.as_str().unicode_len();
        let j = scan_ws(self.src.as_str(), self.pos);
        proof {
            lemma_ws_count(rest);
            assert(ws_count(rest) == j - self.pos);
        }
        if j == len {
            return None;
        }
        proof {
            lemma_skip_skip(self.src@, self.pos as int, j - self.pos);
            lemma_next_token_bounds(self.src@.skip(j as int));
        }
        match scan_token(self.src.as_str(), j) {
            None => Some(Err(LexError { pos: j })),
            Some((t, np)) => {
                proof {
                    lemma_skip_skip(self.src@, self.pos as int, np - self.pos);
                    assert(spec_lex(rest).0 == seq![t@] + spec_lex(self.src@.skip(np as int)).0);
                    assert(spec_lex(rest).0.skip(1) =~= spec_lex(self.src@.skip(np as int)).0);
                }
                self.pos = np;
                Some(Ok(t))
            },
        }
    }

    /// Looks at what the next pull would hand back, without consuming it:
    /// the single token of lookahead the parser dispatches on.
    pub fn peek(&self) -> (r: Option<Result<Token, LexError>>)
        requires
            self.wf(),
        ensures
            stream_step(self.toks(), self.lex_err(), r),
    {
        let ghost rest = self.remaining();
        let len = self.src.as_str().unicode_len();
        let j = scan_ws(self.src.as_str(), self.pos);
        proof {
            lemma_ws_count(rest);
            assert(ws_count(rest) == j - self.pos);
        }
        if j == len {
            return None;
        }
        proof {
            lemma_skip_skip(self.src@, self.pos as int, j - self.pos);
            lemma_next_token_bounds(self.src@.skip(j as int));
        }
        match scan_token(self.src.as_str(), j) {
            None => Some(Err(LexError { pos: j })),
            Some((t, _np)) => Some(Ok(t)),
        }
    }
}

} // verus!
