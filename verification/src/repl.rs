//! The decision step of the interactive shell. The shell itself (prompting,
//! reading lines, printing) lives outside the library; each line it reads is
//! handed to `start`, which decides whether the session ends or what the
//! line tokenizes to. Each line is an independent, complete, restartable
//! scan: no state is retained between lines.

use vstd::prelude::*;

use crate::lex::{spec_lex, tokenize, word_eq, LexError};
use crate::token::Token;
use vstd::string::StrSliceExecFns;

verus! {

/// One step of the interactive session: `None` when `line` is the quit
/// command (the exact line `exit` with its newline), else the tokens of the
/// line, or the lexical error that cut its scan short.
pub fn start(line: &str) -> (r: Option<Result<Vec<Token>, LexError>>)
    ensures
        (r is None) == (line@ == "exit\n"@),
        (match r {
            None => true,
            Some(tr) => (match spec_lex(line@) {
                (toks, None) => tr matches Ok(v) && v.deep_view() == toks,
                (toks, Some(p)) => tr matches Err(e) && e.pos == p,
            }),
        }),
{
    let len = line.unicode_len();
    if word_eq(line, 0, len, "exit\n") {
        proof {
            assert(line@.subrange(0, len as int) =~= line@);
        }
        None
    } else {
        proof {
            assert(line@.subrange(0, len as int) =~= line@);
        }
        Some(tokenize(line))
    }
}

} // verus!
