//! The tokenizer: a rule-driven scanner that turns source text into a
//! sequence of classified tokens.
//!
//! The grammar table and the matching policy live here, first as
//! specification functions over sequences of characters (the single source of
//! truth every contract refers to), then as the executable scanner proved
//! equal to them.
//!
//! Matching policy at each scan position, in priority order:
//! 1. runs of whitespace are skipped and emit nothing;
//! 2. a maximal run of letters and underscores forms a word; keyword
//!    sequences of several whitespace-separated words (`do not be`, `do be`,
//!    `flex on`) are matched greedily, longest first, as a single token;
//!    a single word that spells a keyword is that keyword, never an
//!    identifier; any other word is an identifier;
//! 3. a maximal run of decimal digits is an integer literal; a value that
//!    does not fit the literal's fixed width is a lexical error, not a
//!    wraparound;
//! 4. a quote character opens a string literal that runs to the next
//!    occurrence of the same quote; the other quote character may appear
//!    inside it verbatim; an unterminated literal is a lexical error;
//! 5. the single-character operators and delimiters match themselves;
//! 6. any other character is a lexical error, surfaced with its position.

use vstd::prelude::*;

use crate::token::{Token, TokenModel};
use vstd::string::StrSliceExecFns;

verus! {

/// Whitespace skipped between tokens: space, tab, carriage return, newline.
pub open spec fn is_ws_char(c: char) -> bool {
    c == ' ' || c == '\t' || c == '\r' || c == '\n'
}

/// Characters a word (keyword or identifier) is made of: letters and
/// underscores, case-sensitive, no digits.
pub open spec fn is_word_char(c: char) -> bool {
    ('a' as u32) <= (c as u32) && (c as u32) <= ('z' as u32)
        || ('A' as u32) <= (c as u32) && (c as u32) <= ('Z' as u32)
        || c == '_'
}

/// Decimal digits.
pub open spec fn is_digit_char(c: char) -> bool {
    ('0' as u32) <= (c as u32) && (c as u32) <= ('9' as u32)
}

/// Either of the two string-literal delimiters.
pub open spec fn is_quote_char(c: char) -> bool {
    c == '"' || c == '\''
}

/// Numeric value of a digit character.
pub open spec fn digit_val(c: char) -> int {
    (c as u32) as int - ('0' as u32) as int
}

/// Length of the run of whitespace at the front of `s`.
pub open spec fn ws_count(s: Seq<char>) -> int
    decreases s.len(),
{
    if s.len() > 0 && is_ws_char(s[0]) {
        1 + ws_count(s.skip(1))
    } else {
        0
    }
}

/// Length of the run of word characters at the front of `s`.
pub open spec fn word_len(s: Seq<char>) -> int
    decreases s.len(),
{
    if s.len() > 0 && is_word_char(s[0]) {
        1 + word_len(s.skip(1))
    } else {
        0
    }
}

/// Length of the run of digit characters at the front of `s`.
pub open spec fn digits_len(s: Seq<char>) -> int
    decreases s.len(),
{
    if s.len() > 0 && is_digit_char(s[0]) {
        1 + digits_len(s.skip(1))
    } else {
        0
    }
}

/// Index of the first occurrence of `q` in `s`, if any.
pub open spec fn find_char(s: Seq<char>, q: char) -> Option<int>
    decreases s.len(),
{
    if s.len() == 0 {
        None
    } else if s[0] == q {
        Some(0int)
    } else {
        match find_char(s.skip(1), q) {
            Some(k) => Some(k + 1),
            None => None,
        }
    }
}

/// Value of a run of decimal digits, most significant first.
pub open spec fn digits_val(ds: Seq<char>) -> int
    decreases ds.len(),
{
    if ds.len() == 0 {
        0
    } else {
        digits_val(ds.drop_last()) * 10 + digit_val(ds.last())
    }
}

/// The single-word entries of the grammar table: what a lone word spells.
/// A word that spells none of these is an identifier.
pub open spec fn keyword_token(w: Seq<char>) -> Option<TokenModel> {
    if w == "cap"@ {
        Some(TokenModel::Bool(false))
    } else if w == "nocap"@ {
        Some(TokenModel::Bool(true))
    } else if w == "be"@ {
        Some(TokenModel::Assign)
    } else if w == "felloff"@ {
        Some(TokenModel::LessThan)
    } else if w == "flexin"@ {
        Some(TokenModel::GreaterThan)
    } else if w == "not"@ {
        Some(TokenModel::Not)
    } else if w == "and"@ {
        Some(TokenModel::And)
    } else if w == "or"@ {
        Some(TokenModel::Or)
    } else if w == "rn"@ {
        Some(TokenModel::StmtEnd)
    } else if w == "lowkey"@ {
        Some(TokenModel::ScopeStart)
    } else if w == "bet"@ {
        Some(TokenModel::ScopeEnd)
    } else if w == "ngl"@ {
        Some(TokenModel::VarDecl)
    } else if w == "finna"@ {
        Some(TokenModel::FnDecl)
    } else if w == "fr"@ {
        Some(TokenModel::If)
    } else if w == "cope"@ {
        Some(TokenModel::Else)
    } else {
        None
    }
}

/// What a lone word tokenizes to: its keyword if it spells one, else an
/// identifier. Keywords always take precedence over identifiers.
pub open spec fn single_word_token(w: Seq<char>) -> TokenModel {
    match keyword_token(w) {
        Some(t) => t,
        None => TokenModel::Ident(w),
    }
}

/// The token matched at the front of `s` when `s` starts with a word
/// character: first the multi-word keywords, longest first, then the
/// single-word table, then an identifier. Words are maximal runs of word
/// characters; the whitespace between the words of a multi-word keyword is
/// part of the match but of no token.
pub open spec fn spec_word_token(s: Seq<char>) -> Option<(TokenModel, int)> {
    let wl = word_len(s);
    let w1 = s.take(wl);
    if w1 == "do"@ {
        let g1 = ws_count(s.skip(wl));
        let e2 = wl + g1 + word_len(s.skip(wl + g1));
        let w2 = s.subrange(wl + g1, e2);
        if w2 == "not"@ {
            let g2 = ws_count(s.skip(e2));
            let e3 = e2 + g2 + word_len(s.skip(e2 + g2));
            let w3 = s.subrange(e2 + g2, e3);
            if w3 == "be"@ {
                Some((TokenModel::NotEqual, e3))
            } else {
                Some((TokenModel::Ident(w1), wl))
            }
        } else if w2 == "be"@ {
            Some((TokenModel::Equal, e2))
        } else {
            Some((TokenModel::Ident(w1), wl))
        }
    } else if w1 == "flex"@ {
        let g1 = ws_count(s.skip(wl));
        let e2 = wl + g1 + word_len(s.skip(wl + g1));
        let w2 = s.subrange(wl + g1, e2);
        if w2 == "on"@ {
            Some((TokenModel::GreaterThan, e2))
        } else {
            Some((TokenModel::Ident(w1), wl))
        }
    } else {
        Some((single_word_token(w1), wl))
    }
}

/// The token matched at the front of `s` (whose first character is not
/// whitespace), with the number of characters the match consumes.
/// `None` is a lexical error at the front of `s`: no rule matches, an
/// unterminated string literal, or an integer literal too large for `i32`.
pub open spec fn spec_next_token(s: Seq<char>) -> Option<(TokenModel, int)> {
    if s.len() == 0 {
        None
    } else if is_word_char(s[0]) {
        spec_word_token(s)
    } else if is_digit_char(s[0]) {
        let dl = digits_len(s);
        let v = digits_val(s.take(dl));
        if v <= i32::MAX as int {
            Some((TokenModel::Int(v as i32), dl))
        } else {
            None
        }
    } else if is_quote_char(s[0]) {
        match find_char(s.skip(1), s[0]) {
            Some(k) => Some((TokenModel::Str(s.subrange(1, 1 + k)), k + 2)),
            None => None,
        }
    } else if s[0] == '+' {
        Some((TokenModel::Plus, 1))
    } else if s[0] == '-' {
        Some((TokenModel::Minus, 1))
    } else if s[0] == '*' {
        Some((TokenModel::Asterisk, 1))
    } else if s[0] == '/' {
        Some((TokenModel::Slash, 1))
    } else if s[0] == '<' {
        Some((TokenModel::LessThan, 1))
    } else if s[0] == '>' {
        Some((TokenModel::GreaterThan, 1))
    } else if s[0] == ',' {
        Some((TokenModel::Comma, 1))
    } else {
        None
    }
}

/// The token sequence of a whole source text, with the position of the
/// lexical error that cut the scan short, if one did. The scan is a pure
/// function of the text: tokenizing the same text twice gives the same
/// outcome.
pub open spec fn spec_lex(s: Seq<char>) -> (Seq<TokenModel>, Option<int>)
    decreases s.len(),
    via spec_lex_decreases
{
    let j = ws_count(s);
    if j == s.len() {
        (seq![], None)
    } else {
        match spec_next_token(s.skip(j)) {
            None => (seq![], Some(j)),
            Some((t, n)) => {
                let rest = spec_lex(s.skip(j + n));
                (
                    seq![t] + rest.0,
                    match rest.1 {
                        Some(p) => Some(j + n + p),
                        None => None,
                    },
                )
            },
        }
    }
}

#[via_fn]
proof fn spec_lex_decreases(s: Seq<char>) {
    lemma_ws_count(s);
    let j = ws_count(s);
    if j < s.len() {
        lemma_next_token_bounds(s.skip(j));
    }
}

/// Dropping `a` then `b` characters is dropping `a + b`.
pub proof fn lemma_skip_skip(s: Seq<char>, a: int, b: int)
    requires
        0 <= a,
        0 <= b,
        a + b <= s.len(),
    ensures
        s.skip(a).skip(b) == s.skip(a + b),
{
    assert(s.skip(a).skip(b) =~= s.skip(a + b));
}

/// `ws_count` is the length of the maximal whitespace run at the front.
pub proof fn lemma_ws_count(s: Seq<char>)
    ensures
        0 <= ws_count(s) <= s.len(),
        forall|i: int| 0 <= i < ws_count(s) ==> is_ws_char(s[i]),
        ws_count(s) < s.len() ==> !is_ws_char(s[ws_count(s)]),
    decreases s.len(),
{
    if s.len() > 0 && is_ws_char(s[0]) {
        lemma_ws_count(s.skip(1));
        assert forall|i: int| 0 <= i < ws_count(s) implies is_ws_char(s[i]) by {
            if i >= 1 {
                assert(is_ws_char(s.skip(1)[i - 1]));
            }
        }
        if ws_count(s) < s.len() {
            assert(s.skip(1)[ws_count(s) - 1] == s[ws_count(s)]);
        }
    }
}

/// `word_len` is the length of the maximal word-character run at the front.
pub proof fn lemma_word_len(s: Seq<char>)
    ensures
        0 <= word_len(s) <= s.len(),
        forall|i: int| 0 <= i < word_len(s) ==> is_word_char(s[i]),
        word_len(s) < s.len() ==> !is_word_char(s[word_len(s)]),
    decreases s.len(),
{
    if s.len() > 0 && is_word_char(s[0]) {
        lemma_word_len(s.skip(1));
        assert forall|i: int| 0 <= i < word_len(s) implies is_word_char(s[i]) by {
            if i >= 1 {
                assert(is_word_char(s.skip(1)[i - 1]));
            }
        }
        if word_len(s) < s.len() {
            assert(s.skip(1)[word_len(s) - 1] == s[word_len(s)]);
        }
    }
}

/// `digits_len` is the length of the maximal digit run at the front.
pub proof fn lemma_digits_len(s: Seq<char>)
    ensures
        0 <= digits_len(s) <= s.len(),
        forall|i: int| 0 <= i < digits_len(s) ==> is_digit_char(s[i]),
        digits_len(s) < s.len() ==> !is_digit_char(s[digits_len(s)]),
    decreases s.len(),
{
    if s.len() > 0 && is_digit_char(s[0]) {
        lemma_digits_len(s.skip(1));
        assert forall|i: int| 0 <= i < digits_len(s) implies is_digit_char(s[i]) by {
            if i >= 1 {
                assert(is_digit_char(s.skip(1)[i - 1]));
            }
        }
        if digits_len(s) < s.len() {
            assert(s.skip(1)[digits_len(s) - 1] == s[digits_len(s)]);
        }
    }
}

/// `find_char` finds the first occurrence, and only a real one.
pub proof fn lemma_find_char(s: Seq<char>, q: char)
    ensures
        match find_char(s, q) {
            Some(k) => 0 <= k < s.len() && s[k] == q && forall|i: int| 0 <= i < k ==> s[i] != q,
            None => forall|i: int| 0 <= i < s.len() ==> s[i] != q,
        },
    decreases s.len(),
{
    if s.len() > 0 && s[0] != q {
        lemma_find_char(s.skip(1), q);
        match find_char(s, q) {
            Some(k) => {
                assert(s.skip(1)[k - 1] == s[k]);
                assert forall|i: int| 0 <= i < k implies s[i] != q by {
                    if i >= 1 {
                        assert(s.skip(1)[i - 1] == s[i]);
                    }
                }
            },
            None => {
                assert forall|i: int| 0 <= i < s.len() implies s[i] != q by {
                    if i >= 1 {
                        assert(s.skip(1)[i - 1] == s[i]);
                    }
                }
            },
        }
    }
}

/// Splitting off the last digit of a prefix.
proof fn lemma_take_succ(s: Seq<char>, k: int)
    requires
        0 <= k < s.len(),
    ensures
        s.take(k + 1).drop_last() == s.take(k),
        s.take(k + 1).last() == s[k],
{
    assert(s.take(k + 1).drop_last() =~= s.take(k));
}

/// A run of digits has a nonnegative value.
proof fn lemma_digits_val_nonneg(ds: Seq<char>)
    requires
        forall|i: int| 0 <= i < ds.len() ==> is_digit_char(ds[i]),
    ensures
        digits_val(ds) >= 0,
    decreases ds.len(),
{
    if ds.len() > 0 {
        assert(forall|i: int|
            0 <= i < ds.drop_last().len() ==> is_digit_char(ds.drop_last()[i]));
        lemma_digits_val_nonneg(ds.drop_last());
    }
}

/// Extending a run of digits never shrinks its value.
proof fn lemma_digits_val_mono(ds: Seq<char>, i: int)
    requires
        forall|k: int| 0 <= k < ds.len() ==> is_digit_char(ds[k]),
        0 <= i <= ds.len(),
    ensures
        digits_val(ds.take(i)) <= digits_val(ds),
    decreases ds.len() - i,
{
    if i < ds.len() {
        lemma_take_succ(ds, i);
        assert(forall|k: int| 0 <= k < ds.take(i).len() ==> is_digit_char(ds.take(i)[k]));
        lemma_digits_val_nonneg(ds.take(i));
        assert(digits_val(ds.take(i + 1)) == digits_val(ds.take(i)) * 10 + digit_val(ds[i]));
        lemma_digits_val_mono(ds, i + 1);
        assert(ds.take(ds.len() as int) =~= ds);
    } else {
        assert(ds.take(ds.len() as int) =~= ds);
    }
}

/// A matched token consumes at least one and at most all characters.
pub proof fn lemma_next_token_bounds(s: Seq<char>)
    requires
        s.len() > 0,
    ensures
        match spec_next_token(s) {
            Some((t, n)) => 1 <= n <= s.len(),
            None => true,
        },
{
    if is_word_char(s[0]) {
        lemma_word_len(s);
        let wl = word_len(s);
        lemma_ws_count(s.skip(wl));
        let g1 = ws_count(s.skip(wl));
        lemma_word_len(s.skip(wl + g1));
        let e2 = wl + g1 + word_len(s.skip(wl + g1));
        lemma_ws_count(s.skip(e2));
        let g2 = ws_count(s.skip(e2));
        lemma_word_len(s.skip(e2 + g2));
    } else if is_digit_char(s[0]) {
        lemma_digits_len(s);
    } else if is_quote_char(s[0]) {
        lemma_find_char(s.skip(1), s[0]);
    }
}

/// A run made of word characters only is one maximal word.
proof fn lemma_word_len_all(s: Seq<char>)
    requires
        forall|i: int| 0 <= i < s.len() ==> is_word_char(s[i]),
    ensures
        word_len(s) == s.len(),
    decreases s.len(),
{
    if s.len() > 0 {
        assert(forall|i: int| 0 <= i < s.skip(1).len() ==> is_word_char(s.skip(1)[i]));
        lemma_word_len_all(s.skip(1));
    }
}

/// Tokenizing a lone word — a nonempty run of word characters in isolation —
/// yields exactly one token: the word's keyword when it spells one of the
/// single-word entries of the grammar table, else an identifier.
pub proof fn lemma_word_alone(w: Seq<char>)
    requires
        w.len() > 0,
        forall|i: int| 0 <= i < w.len() ==> is_word_char(w[i]),
    ensures
        spec_lex(w) == (seq![single_word_token(w)], None::<int>),
{
    reveal_strlit("cap");
    reveal_strlit("nocap");
    reveal_strlit("be");
    reveal_strlit("felloff");
    reveal_strlit("flexin");
    reveal_strlit("not");
    reveal_strlit("and");
    reveal_strlit("or");
    reveal_strlit("rn");
    reveal_strlit("lowkey");
    reveal_strlit("bet");
    reveal_strlit("ngl");
    reveal_strlit("finna");
    reveal_strlit("fr");
    reveal_strlit("cope");
    reveal_strlit("do");
    reveal_strlit("flex");
    reveal_strlit("on");
    let e = w.len() as int;
    assert(!is_ws_char(w[0]));
    assert(ws_count(w) == 0);
    lemma_word_len_all(w);
    assert(w.take(e) =~= w);
    assert(w.skip(e).len() == 0);
    assert(ws_count(w.skip(e)) == 0);
    assert(word_len(w.skip(e)) == 0);
    if w == "do"@ {
        assert(w.subrange(e + 0, e + 0 + 0) =~= Seq::<char>::empty());
        assert(keyword_token(w) is None);
        assert(spec_word_token(w) == Some((TokenModel::Ident(w), e)));
    } else if w == "flex"@ {
        assert(w.subrange(e + 0, e + 0 + 0) =~= Seq::<char>::empty());
        assert(keyword_token(w) is None);
        assert(spec_word_token(w) == Some((TokenModel::Ident(w), e)));
    } else {
        assert(spec_word_token(w) == Some((single_word_token(w), e)));
    }
    assert(spec_next_token(w) == Some((single_word_token(w), e)));
    assert(spec_lex(w.skip(e)) == (Seq::<TokenModel>::empty(), None::<int>));
    assert(seq![single_word_token(w)] + Seq::<TokenModel>::empty() =~= seq![
        single_word_token(w),
    ]);
}

/// Round-trip token classification: a word that spells one of the
/// single-word keywords of the grammar table tokenizes, in isolation, to
/// exactly one token of that keyword's kind — never to an identifier.
pub proof fn lemma_keyword_round_trip(w: Seq<char>)
    requires
        w.len() > 0,
        forall|i: int| 0 <= i < w.len() ==> is_word_char(w[i]),
        keyword_token(w) is Some,
    ensures
        spec_lex(w) == (seq![keyword_token(w).unwrap()], None::<int>),
        !(keyword_token(w).unwrap() is Ident),
{
    lemma_word_alone(w);
}

/// Whitespace insensitivity at the front of the text: one whitespace
/// character prepended to any text leaves the token sequence unchanged, and
/// shifts a lexical error's position with the text.
pub proof fn lemma_leading_ws_char(c: char, s: Seq<char>)
    requires
        is_ws_char(c),
    ensures
        spec_lex(seq![c] + s).0 == spec_lex(s).0,
        spec_lex(seq![c] + s).1 == (match spec_lex(s).1 {
            Some(p) => Some(p + 1),
            None => None::<int>,
        }),
{
    let u = seq![c] + s;
    assert(u[0] == c);
    assert(u.skip(1) =~= s);
    assert(ws_count(u) == 1 + ws_count(s));
    lemma_ws_count(s);
    let j = ws_count(s);
    if j < s.len() {
        assert(u.skip(1 + j) =~= s.skip(j));
        match spec_next_token(s.skip(j)) {
            None => {},
            Some((t, n)) => {
                lemma_next_token_bounds(s.skip(j));
                assert(u.skip(1 + j + n) =~= s.skip(j + n));
            },
        }
    }
}

/// Whitespace insensitivity at the front of the text, for a whole run:
/// extra leading whitespace never changes the token sequence.
pub proof fn lemma_leading_ws_run(w: Seq<char>, s: Seq<char>)
    requires
        forall|i: int| 0 <= i < w.len() ==> is_ws_char(w[i]),
    ensures
        spec_lex(w + s).0 == spec_lex(s).0,
        spec_lex(w + s).1 == (match spec_lex(s).1 {
            Some(p) => Some(p + w.len()),
            None => None::<int>,
        }),
    decreases w.len(),
{
    if w.len() == 0 {
        assert(w + s =~= s);
    } else {
        assert(forall|i: int| 0 <= i < w.skip(1).len() ==> is_ws_char(w.skip(1)[i]));
        lemma_leading_ws_run(w.skip(1), s);
        lemma_leading_ws_char(w[0], w.skip(1) + s);
        assert(w + s =~= seq![w[0]] + (w.skip(1) + s));
    }
}

/// A run of whitespace only is skipped whole.
proof fn lemma_ws_count_all(w: Seq<char>)
    requires
        forall|i: int| 0 <= i < w.len() ==> is_ws_char(w[i]),
    ensures
        ws_count(w) == w.len(),
    decreases w.len(),
{
    if w.len() > 0 {
        assert(forall|i: int| 0 <= i < w.skip(1).len() ==> is_ws_char(w.skip(1)[i]));
        lemma_ws_count_all(w.skip(1));
    }
}

/// Appending whitespace does not change where the leading whitespace run
/// ends, unless the whole text was whitespace already.
proof fn lemma_ws_count_append_ws(s: Seq<char>, w: Seq<char>)
    requires
        forall|i: int| 0 <= i < w.len() ==> is_ws_char(w[i]),
    ensures
        ws_count(s) < s.len() ==> ws_count(s + w) == ws_count(s),
        ws_count(s) == s.len() ==> ws_count(s + w) == s.len() + w.len(),
    decreases s.len(),
{
    lemma_ws_count(s);
    if s.len() == 0 {
        assert(s + w =~= w);
        lemma_ws_count_all(w);
    } else if is_ws_char(s[0]) {
        assert((s + w)[0] == s[0]);
        assert((s + w).skip(1) =~= s.skip(1) + w);
        lemma_ws_count_append_ws(s.skip(1), w);
    } else {
        assert((s + w)[0] == s[0]);
    }
}

/// Appending whitespace never lengthens the leading word.
proof fn lemma_word_len_append_ws(s: Seq<char>, w: Seq<char>)
    requires
        forall|i: int| 0 <= i < w.len() ==> is_ws_char(w[i]),
    ensures
        word_len(s + w) == word_len(s),
    decreases s.len(),
{
    if s.len() == 0 {
        assert(s + w =~= w);
        if w.len() > 0 {
            assert(!is_word_char(w[0]));
        }
    } else {
        assert((s + w)[0] == s[0]);
        if is_word_char(s[0]) {
            assert((s + w).skip(1) =~= s.skip(1) + w);
            lemma_word_len_append_ws(s.skip(1), w);
        }
    }
}

/// Appending whitespace never lengthens the leading digit run.
proof fn lemma_digits_len_append_ws(s: Seq<char>, w: Seq<char>)
    requires
        forall|i: int| 0 <= i < w.len() ==> is_ws_char(w[i]),
    ensures
        digits_len(s + w) == digits_len(s),
    decreases s.len(),
{
    if s.len() == 0 {
        assert(s + w =~= w);
        if w.len() > 0 {
            assert(!is_digit_char(w[0]));
        }
    } else {
        assert((s + w)[0] == s[0]);
        if is_digit_char(s[0]) {
            assert((s + w).skip(1) =~= s.skip(1) + w);
            lemma_digits_len_append_ws(s.skip(1), w);
        }
    }
}

/// Appending whitespace neither finds nor moves a quote character.
proof fn lemma_find_char_append_ws(s: Seq<char>, w: Seq<char>, q: char)
    requires
        forall|i: int| 0 <= i < w.len() ==> is_ws_char(w[i]),
        !is_ws_char(q),
    ensures
        find_char(s + w, q) == find_char(s, q),
    decreases s.len(),
{
    if s.len() == 0 {
        assert(s + w =~= w);
        lemma_find_char(w, q);
        if w.len() > 0 {
            assert(w[0] != q);
        }
        match find_char(w, q) {
            Some(k) => {
                assert(is_ws_char(w[k]));
                assert(false);
            },
            None => {},
        }
    } else {
        assert((s + w)[0] == s[0]);
        if s[0] != q {
            assert((s + w).skip(1) =~= s.skip(1) + w);
            lemma_find_char_append_ws(s.skip(1), w, q);
        }
    }
}

/// The word the scanner peeks at across a whitespace gap is the same after
/// whitespace is appended to the text: the gap may widen, but the word's
/// content does not change, and a nonempty word keeps its place.
proof fn lemma_peek_append_ws(x: Seq<char>, w: Seq<char>)
    requires
        forall|i: int| 0 <= i < w.len() ==> is_ws_char(w[i]),
    ensures
        ({
            let g = ws_count(x);
            let m = word_len(x.skip(g));
            let g2 = ws_count(x + w);
            let m2 = word_len((x + w).skip(g2));
            m2 == m && (m > 0 ==> g2 == g && (x + w).subrange(g2, g2 + m2) == x.subrange(g, g + m))
        }),
{
    let g = ws_count(x);
    let m = word_len(x.skip(g));
    lemma_ws_count(x);
    lemma_word_len(x.skip(g));
    lemma_ws_count_append_ws(x, w);
    if g == x.len() {
        assert(x.skip(g).len() == 0);
        assert(m == 0);
        let g2 = ws_count(x + w);
        assert(g2 == x.len() + w.len());
        assert((x + w).skip(g2).len() == 0);
    } else {
        let g2 = ws_count(x + w);
        assert(g2 == g);
        assert((x + w).skip(g) =~= x.skip(g) + w);
        lemma_word_len_append_ws(x.skip(g), w);
        let m2 = word_len((x + w).skip(g2));
        assert(m2 == m);
        if m > 0 {
            assert((x + w).subrange(g, g + m) =~= x.subrange(g, g + m));
        }
    }
}

/// The token matched at the front of a text is unchanged when whitespace is
/// appended behind it.
proof fn lemma_next_token_append_ws(u: Seq<char>, w: Seq<char>)
    requires
        u.len() > 0,
        !is_ws_char(u[0]),
        forall|i: int| 0 <= i < w.len() ==> is_ws_char(w[i]),
    ensures
        spec_next_token(u + w) == spec_next_token(u),
{
    reveal_strlit("do");
    reveal_strlit("flex");
    reveal_strlit("not");
    reveal_strlit("be");
    reveal_strlit("on");
    assert((u + w)[0] == u[0]);
    if is_word_char(u[0]) {
        lemma_word_len_append_ws(u, w);
        let wl = word_len(u);
        lemma_word_len(u);
        assert((u + w).take(wl) =~= u.take(wl));
        let w1 = u.take(wl);
        let x = u.skip(wl);
        let xb = (u + w).skip(wl);
        assert(xb =~= x + w);
        lemma_peek_append_ws(x, w);
        let g1 = ws_count(x);
        let m1 = word_len(x.skip(g1));
        lemma_ws_count(x);
        lemma_ws_count(xb);
        lemma_word_len(x.skip(g1));
        let g1b = ws_count(xb);
        assert(x.skip(g1) =~= u.skip(wl + g1));
        assert(xb.skip(g1b) =~= (u + w).skip(wl + g1b));
        assert(word_len(u.skip(wl + g1)) == m1);
        assert(word_len((u + w).skip(wl + g1b)) == m1);
        let e2 = wl + g1 + m1;
        let w2 = u.subrange(wl + g1, e2);
        let w2b = (u + w).subrange(wl + g1b, wl + g1b + m1);
        if m1 > 0 {
            assert(g1b == g1);
            assert(w2 =~= x.subrange(g1, g1 + m1));
            assert(w2b =~= xb.subrange(g1b, g1b + m1));
            assert(w2b == w2);
        } else {
            assert(w2.len() == 0 && w2b.len() == 0);
            assert(w2b =~= w2);
        }
        if w1 == "do"@ && w2 == "not"@ {
            assert(m1 == 3);
            assert(g1b == g1);
            let y = u.skip(e2);
            let yb = (u + w).skip(e2);
            assert(yb =~= y + w);
            lemma_peek_append_ws(y, w);
            let g2 = ws_count(y);
            let m3 = word_len(y.skip(g2));
            lemma_ws_count(y);
            lemma_ws_count(yb);
            lemma_word_len(y.skip(g2));
            let g2b = ws_count(yb);
            assert(y.skip(g2) =~= u.skip(e2 + g2));
            assert(yb.skip(g2b) =~= (u + w).skip(e2 + g2b));
            assert(word_len(u.skip(e2 + g2)) == m3);
            assert(word_len((u + w).skip(e2 + g2b)) == m3);
            let e3 = e2 + g2 + m3;
            let w3 = u.subrange(e2 + g2, e3);
            let w3b = (u + w).subrange(e2 + g2b, e2 + g2b + m3);
            if m3 > 0 {
                assert(g2b == g2);
                assert(w3 =~= y.subrange(g2, g2 + m3));
                assert(w3b =~= yb.subrange(g2b, g2b + m3));
                assert(w3b == w3);
            } else {
                assert(w3.len() == 0 && w3b.len() == 0);
                assert(w3b =~= w3);
            }
        }
    } else if is_digit_char(u[0]) {
        lemma_digits_len_append_ws(u, w);
        let dl = digits_len(u);
        lemma_digits_len(u);
        assert((u + w).take(dl) =~= u.take(dl));
    } else if is_quote_char(u[0]) {
        assert((u + w).skip(1) =~= u.skip(1) + w);
        lemma_find_char_append_ws(u.skip(1), w, u[0]);
        match find_char(u.skip(1), u[0]) {
            Some(k) => {
                lemma_find_char(u.skip(1), u[0]);
                assert((u + w).subrange(1, 1 + k) =~= u.subrange(1, 1 + k));
            },
            None => {},
        }
    }
}

/// Whitespace insensitivity at the back of the text: extra trailing
/// whitespace changes neither the token sequence nor the position of a
/// lexical error.
pub proof fn lemma_trailing_ws_run(s: Seq<char>, w: Seq<char>)
    requires
        forall|i: int| 0 <= i < w.len() ==> is_ws_char(w[i]),
    ensures
        spec_lex(s + w) == spec_lex(s),
    decreases s.len(),
{
    let j = ws_count(s);
    lemma_ws_count(s);
    lemma_ws_count_append_ws(s, w);
    if j == s.len() {
        assert(ws_count(s + w) == (s + w).len());
    } else {
        assert(ws_count(s + w) == j);
        let u = s.skip(j);
        assert((s + w).skip(j) =~= u + w);
        lemma_next_token_append_ws(u, w);
        match spec_next_token(u) {
            None => {},
            Some((t, n)) => {
                lemma_next_token_bounds(u);
                assert((s + w).skip(j + n) =~= s.skip(j + n) + w);
                lemma_trailing_ws_run(s.skip(j + n), w);
            },
        }
    }
}

/// Pins `ws_count`: a whitespace run of exactly `k` characters at the front.
proof fn lemma_ws_count_is(y: Seq<char>, k: int)
    requires
        0 <= k <= y.len(),
        forall|i: int| 0 <= i < k ==> is_ws_char(y[i]),
        k < y.len() ==> !is_ws_char(y[k]),
    ensures
        ws_count(y) == k,
    decreases y.len(),
{
    if k > 0 {
        assert(forall|i: int| 0 <= i < k - 1 ==> is_ws_char(y.skip(1)[i]));
        if k - 1 < y.skip(1).len() {
            assert(y.skip(1)[k - 1] == y[k]);
        }
        lemma_ws_count_is(y.skip(1), k - 1);
    }
}

/// Pins `word_len`: a word-character run of exactly `k` characters at the
/// front.
proof fn lemma_word_len_is(y: Seq<char>, k: int)
    requires
        0 <= k <= y.len(),
        forall|i: int| 0 <= i < k ==> is_word_char(y[i]),
        k < y.len() ==> !is_word_char(y[k]),
    ensures
        word_len(y) == k,
    decreases y.len(),
{
    if k > 0 {
        assert(forall|i: int| 0 <= i < k - 1 ==> is_word_char(y.skip(1)[i]));
        if k - 1 < y.skip(1).len() {
            assert(y.skip(1)[k - 1] == y[k]);
        }
        lemma_word_len_is(y.skip(1), k - 1);
    }
}

/// Pins `digits_len`: a digit run of exactly `k` characters at the front.
proof fn lemma_digits_len_is(y: Seq<char>, k: int)
    requires
        0 <= k <= y.len(),
        forall|i: int| 0 <= i < k ==> is_digit_char(y[i]),
        k < y.len() ==> !is_digit_char(y[k]),
    ensures
        digits_len(y) == k,
    decreases y.len(),
{
    if k > 0 {
        assert(forall|i: int| 0 <= i < k - 1 ==> is_digit_char(y.skip(1)[i]));
        if k - 1 < y.skip(1).len() {
            assert(y.skip(1)[k - 1] == y[k]);
        }
        lemma_digits_len_is(y.skip(1), k - 1);
    }
}

/// Pins `find_char`: the first occurrence stands exactly at `k`.
proof fn lemma_find_char_is(y: Seq<char>, q: char, k: int)
    requires
        0 <= k < y.len(),
        y[k] == q,
        forall|i: int| 0 <= i < k ==> y[i] != q,
    ensures
        find_char(y, q) == Some(k),
    decreases y.len(),
{
    if k > 0 {
        assert(forall|i: int| 0 <= i < k - 1 ==> y.skip(1)[i] != q);
        assert(y.skip(1)[k - 1] == y[k]);
        lemma_find_char_is(y.skip(1), q, k - 1);
    }
}

/// The text with one character inserted before position `p`.
pub open spec fn with_inserted(s: Seq<char>, p: int, c: char) -> Seq<char> {
    s.take(p) + seq![c] + s.skip(p)
}

/// A position at which inserting whitespace is "between tokens": within the
/// whitespace ahead of a token (or ahead of the lexical error), or behind
/// the matched span of a token and between the tokens after it. Positions
/// strictly inside a token's matched span are not included.
pub open spec fn ws_insert_ok(s: Seq<char>, p: int) -> bool
    decreases s.len(),
    via ws_insert_ok_decreases
{
    let j = ws_count(s);
    if j == s.len() {
        true
    } else {
        match spec_next_token(s.skip(j)) {
            None => p <= j,
            Some((t, n)) => p <= j || (p >= j + n && ws_insert_ok(s.skip(j + n), p - j - n)),
        }
    }
}

#[via_fn]
proof fn ws_insert_ok_decreases(s: Seq<char>, p: int) {
    lemma_ws_count(s);
    let j = ws_count(s);
    if j < s.len() {
        lemma_next_token_bounds(s.skip(j));
    }
}

/// A token whose match starts at a word character consumes at least that
/// whole word.
proof fn lemma_next_token_covers_word(x: Seq<char>)
    requires
        x.len() > 0,
        is_word_char(x[0]),
        spec_next_token(x) is Some,
    ensures
        spec_next_token(x).unwrap().1 >= word_len(x),
{
    let wl = word_len(x);
    lemma_word_len(x);
    lemma_ws_count(x.skip(wl));
    let g1 = ws_count(x.skip(wl));
    lemma_word_len(x.skip(wl + g1));
    lemma_ws_count(x.skip(wl + g1 + word_len(x.skip(wl + g1))));
    let e2 = wl + g1 + word_len(x.skip(wl + g1));
    lemma_word_len(x.skip(e2 + ws_count(x.skip(e2))));
}

/// The gap and the word the scanner peeks at are unchanged by a whitespace
/// character inserted inside the gap or behind the word.
proof fn lemma_peek_insert(x: Seq<char>, r: int, c: char)
    requires
        is_ws_char(c),
        0 <= r <= x.len(),
        ({
            let g = ws_count(x);
            let m = word_len(x.skip(g));
            r <= g || r >= g + m
        }),
    ensures
        ({
            let g = ws_count(x);
            let m = word_len(x.skip(g));
            let x2 = with_inserted(x, r, c);
            let g2 = ws_count(x2);
            let m2 = word_len(x2.skip(g2));
            g2 == (if r <= g {
                g + 1
            } else {
                g
            }) && m2 == m && x2.subrange(g2, g2 + m2) == x.subrange(g, g + m)
        }),
{
    let g = ws_count(x);
    let m = word_len(x.skip(g));
    let x2 = with_inserted(x, r, c);
    lemma_ws_count(x);
    lemma_word_len(x.skip(g));
    assert(x2.len() == x.len() + 1);
    assert(forall|i: int| 0 <= i < r ==> x2[i] == x[i]);
    assert(x2[r] == c);
    assert(forall|i: int| r < i < x2.len() ==> x2[i] == x[i - 1]);
    if r <= g {
        assert(forall|i: int| 0 <= i < g + 1 ==> is_ws_char(x2[i]));
        if g < x.len() {
            assert(x2[g + 1] == x[g]);
        }
        lemma_ws_count_is(x2, g + 1);
        assert(x2.skip(g + 1) =~= x.skip(g));
        assert(x2.subrange(g + 1, g + 1 + m) =~= x.subrange(g, g + m));
    } else {
        assert(g < x.len());
        lemma_ws_count_is(x2, g);
        assert forall|i: int| 0 <= i < m implies is_word_char(x2.skip(g)[i]) by {
            assert(x2.skip(g)[i] == x2[g + i]);
            assert(x2[g + i] == x[g + i]);
            assert(x[g + i] == x.skip(g)[i]);
        }
        if g + m < x2.len() {
            if r == g + m {
                assert(x2[g + m] == c);
            } else {
                assert(g + m < x.len());
                assert(x2[g + m] == x[g + m]);
            }
            assert(!is_word_char(x2.skip(g)[m]));
        }
        lemma_word_len_is(x2.skip(g), m);
        assert(x2.subrange(g, g + m) =~= x.subrange(g, g + m));
    }
}

/// A position that `ws_insert_ok` allows ahead of the next token lies in
/// the whitespace before it or behind the word it begins with.
proof fn lemma_insert_ok_peek(x: Seq<char>, r: int)
    requires
        0 <= r <= x.len(),
        ws_insert_ok(x, r),
    ensures
        r <= ws_count(x) || r >= ws_count(x) + word_len(x.skip(ws_count(x))),
{
    let g = ws_count(x);
    lemma_ws_count(x);
    if g < x.len() {
        let m = word_len(x.skip(g));
        lemma_word_len(x.skip(g));
        match spec_next_token(x.skip(g)) {
            None => {},
            Some((t2, n2)) => {
                if r > g {
                    lemma_next_token_bounds(x.skip(g));
                    if m > 0 {
                        assert(is_word_char(x.skip(g)[0]));
                        lemma_next_token_covers_word(x.skip(g));
                    }
                }
            },
        }
    }
}

/// The word-rule case of inserting whitespace behind a matched token.
#[verifier::rlimit(100)]
proof fn lemma_word_insert_ws(u: Seq<char>, q: int, c: char)
    requires
        u.len() > 0,
        is_word_char(u[0]),
        is_ws_char(c),
        spec_next_token(u) is Some,
        spec_next_token(u).unwrap().1 <= q <= u.len(),
        ws_insert_ok(
            u.skip(spec_next_token(u).unwrap().1),
            q - spec_next_token(u).unwrap().1,
        ),
    ensures
        spec_word_token(with_inserted(u, q, c)) == spec_word_token(u),
{
    reveal_strlit("be");
    reveal_strlit("not");
    reveal_strlit("do");
    reveal_strlit("flex");
    reveal_strlit("on");
    let n = spec_next_token(u).unwrap().1;
    let u2 = with_inserted(u, q, c);
    lemma_next_token_bounds(u);
    assert(u2.len() == u.len() + 1);
    assert(forall|i: int| 0 <= i < q ==> u2[i] == u[i]);
    assert(u2[q] == c);
    assert(forall|i: int| q < i < u2.len() ==> u2[i] == u[i - 1]);
    assert(u2[0] == u[0]);
        let wl = word_len(u);
        lemma_word_len(u);
        lemma_next_token_covers_word(u);
        assert(forall|i: int| 0 <= i < wl ==> is_word_char(u2[i]));
        if q == wl {
            assert(u2[wl] == c);
        } else {
            assert(wl < u.len());
            assert(u2[wl] == u[wl]);
        }
        assert(!is_word_char(u2[wl]));
        lemma_word_len_is(u2, wl);
        assert(u2.take(wl) =~= u.take(wl));
        let w1 = u.take(wl);
        let x = u.skip(wl);
        let x2 = u2.skip(wl);
        assert(x2 =~= with_inserted(x, q - wl, c));
        let r = q - wl;
        let g1 = ws_count(x);
        let m1 = word_len(x.skip(g1));
        lemma_ws_count(x);
        lemma_word_len(x.skip(g1));
        assert(x.skip(g1) =~= u.skip(wl + g1));
        assert(word_len(u.skip(wl + g1)) == m1);
        let e2 = wl + g1 + m1;
        let w2 = u.subrange(wl + g1, e2);
        assert(w2 =~= x.subrange(g1, g1 + m1));
        if w1 == "do"@ || w1 == "flex"@ {
            // where the insertion may land, relative to the peeked word
            if n == wl {
                lemma_insert_ok_peek(x, r);
            } else {
                // the token spans the peeked word, and q lies behind it
                lemma_ws_count(u.skip(e2));
                lemma_word_len(u.skip(e2 + ws_count(u.skip(e2))));
                assert(n >= wl + g1 + m1);
            }
            assert(r <= g1 || r >= g1 + m1);
            lemma_peek_insert(x, r, c);
            let g1b = ws_count(x2);
            assert(ws_count(u2.skip(wl)) == g1b);
            assert(x2.skip(g1b) =~= u2.skip(wl + g1b));
            assert(word_len(u2.skip(wl + g1b)) == m1);
            let w2b = u2.subrange(wl + g1b, wl + g1b + m1);
            assert(w2b =~= x2.subrange(g1b, g1b + m1));
            assert(w2b == w2);
            if w1 == "do"@ && w2 == "not"@ {
                // the rule peeks one word further
                assert(m1 == 3);
                assert(r >= g1 + 3 || r <= g1);
                let z = u.skip(e2);
                assert(z =~= x.skip(g1 + 3));
                let g2 = ws_count(z);
                let m3 = word_len(z.skip(g2));
                lemma_ws_count(z);
                lemma_word_len(z.skip(g2));
                assert(z.skip(g2) =~= u.skip(e2 + g2));
                assert(word_len(u.skip(e2 + g2)) == m3);
                let w3 = u.subrange(e2 + g2, e2 + g2 + m3);
                assert(w3 =~= z.subrange(g2, g2 + m3));
                if n == wl {
                    // the insertion falls between the tokens after the word
                    if r <= g1 {
                        // in the gap before `not`: the whole tail only shifts
                        assert(g1b == g1 + 1);
                        let e2b = wl + g1b + 3;
                        assert(u2.skip(e2b) =~= z);
                        assert(ws_count(u2.skip(e2b)) == g2);
                        assert(u2.skip(e2b + g2) =~= z.skip(g2));
                        assert(word_len(u2.skip(e2b + g2)) == m3);
                        assert(u2.subrange(e2b + g2, e2b + g2 + m3) =~= w3);
                    } else {
                        // behind the `not` token of the tail: derive where the
                        // insertion stands relative to the third word
                        assert(is_word_char(x.skip(g1)[0]));
                        assert(x.skip(g1).take(3) =~= w2);
                        assert(word_len(x.skip(g1)) == 3);
                        assert(spec_word_token(x.skip(g1)) matches Some(p2) && p2.1 == 3);
                        assert(spec_next_token(x.skip(g1)) matches Some(p2) && p2.1 == 3);
                        assert(r >= g1 + 3);
                        assert(ws_insert_ok(x.skip(g1 + 3), r - g1 - 3));
                        assert(ws_insert_ok(z, r - g1 - 3));
                        lemma_insert_ok_peek(z, r - g1 - 3);
                        lemma_peek_insert(z, r - g1 - 3, c);
                        assert(g1b == g1);
                        let e2b = wl + g1b + 3;
                        assert(e2b == e2);
                        assert(u2.skip(e2) =~= with_inserted(z, r - g1 - 3, c));
                        let z2 = with_inserted(z, r - g1 - 3, c);
                        let g2b = ws_count(z2);
                        assert(ws_count(u2.skip(e2)) == g2b);
                        assert(z2.skip(g2b) =~= u2.skip(e2 + g2b));
                        assert(word_len(u2.skip(e2 + g2b)) == m3);
                        assert(u2.subrange(e2 + g2b, e2 + g2b + m3) =~= z2.subrange(
                            g2b,
                            g2b + m3,
                        ));
                        assert(z2.subrange(g2b, g2b + m3) == w3);
                    }
                } else {
                    // NotEqual: the whole three-word span lies before q
                    assert(n == e2 + g2 + m3);
                    assert(m3 == 2);
                    assert(g1b == g1);
                    assert(u2.skip(e2) =~= with_inserted(z, q - e2, c));
                    assert(q - e2 >= g2 + m3);
                    lemma_peek_insert(z, q - e2, c);
                    let z2 = with_inserted(z, q - e2, c);
                    let g2b = ws_count(z2);
                    assert(g2b == g2);
                    assert(ws_count(u2.skip(e2)) == g2);
                    assert(z2.skip(g2) =~= u2.skip(e2 + g2));
                    assert(word_len(u2.skip(e2 + g2)) == m3);
                    assert(u2.subrange(e2 + g2, e2 + g2 + m3) =~= z2.subrange(g2, g2 + m3));
                    assert(z2.subrange(g2, g2 + m3) == w3);
                }
            }
        }
}

/// The token matched at the front of a text is unchanged by a whitespace
/// character inserted behind its matched span, provided the insertion also
/// falls between the tokens that follow.
#[verifier::rlimit(100)]
proof fn lemma_next_token_insert_ws(u: Seq<char>, q: int, c: char)
    requires
        u.len() > 0,
        !is_ws_char(u[0]),
        is_ws_char(c),
        spec_next_token(u) is Some,
        spec_next_token(u).unwrap().1 <= q <= u.len(),
        ws_insert_ok(
            u.skip(spec_next_token(u).unwrap().1),
            q - spec_next_token(u).unwrap().1,
        ),
    ensures
        spec_next_token(with_inserted(u, q, c)) == spec_next_token(u),
{
    let n = spec_next_token(u).unwrap().1;
    let u2 = with_inserted(u, q, c);
    lemma_next_token_bounds(u);
    assert(u2.len() == u.len() + 1);
    assert(forall|i: int| 0 <= i < q ==> u2[i] == u[i]);
    assert(u2[q] == c);
    assert(forall|i: int| q < i < u2.len() ==> u2[i] == u[i - 1]);
    assert(u2[0] == u[0]);
    if is_word_char(u[0]) {
        lemma_word_insert_ws(u, q, c);
    } else if is_digit_char(u[0]) {
        let dl = digits_len(u);
        lemma_digits_len(u);
        assert(forall|i: int| 0 <= i < dl ==> is_digit_char(u2[i]));
        if q == dl {
            assert(u2[dl] == c);
        } else {
            assert(dl < u.len());
            assert(u2[dl] == u[dl]);
        }
        assert(!is_digit_char(u2[dl]));
        lemma_digits_len_is(u2, dl);
        assert(u2.take(dl) =~= u.take(dl));
    } else if is_quote_char(u[0]) {
        lemma_find_char(u.skip(1), u[0]);
        match find_char(u.skip(1), u[0]) {
            Some(k) => {
                assert(forall|i: int| 0 <= i <= k ==> u2.skip(1)[i] == u.skip(1)[i]);
                lemma_find_char_is(u2.skip(1), u[0], k);
                assert(u2.subrange(1, 1 + k) =~= u.subrange(1, 1 + k));
            },
            None => {},
        }
    }
}

/// Whitespace insensitivity inside the text: a whitespace character inserted
/// at a position between tokens — never strictly inside a token's matched
/// span — leaves the token sequence of a cleanly tokenizing text unchanged.
pub proof fn lemma_ws_insert(s: Seq<char>, p: int, c: char)
    requires
        is_ws_char(c),
        0 <= p <= s.len(),
        spec_lex(s).1 is None,
        ws_insert_ok(s, p),
    ensures
        spec_lex(with_inserted(s, p, c)) == (spec_lex(s).0, None::<int>),
    decreases s.len(),
{
    let s2 = with_inserted(s, p, c);
    let j = ws_count(s);
    lemma_ws_count(s);
    assert(s2.len() == s.len() + 1);
    assert(forall|i: int| 0 <= i < p ==> s2[i] == s[i]);
    assert(s2[p] == c);
    assert(forall|i: int| p < i < s2.len() ==> s2[i] == s[i - 1]);
    if j == s.len() {
        assert(forall|i: int| 0 <= i < s2.len() ==> is_ws_char(s2[i]));
        lemma_ws_count_all(s2);
    } else if p <= j {
        assert(forall|i: int| 0 <= i < j + 1 ==> is_ws_char(s2[i]));
        assert(s2[j + 1] == s[j]);
        lemma_ws_count_is(s2, j + 1);
        assert(s2.skip(j + 1) =~= s.skip(j));
        match spec_next_token(s.skip(j)) {
            None => {},
            Some((t, n)) => {
                lemma_next_token_bounds(s.skip(j));
                assert(s2.skip(j + 1 + n) =~= s.skip(j + n));
            },
        }
    } else {
        lemma_ws_count_is(s2, j);
        let u = s.skip(j);
        match spec_next_token(u) {
            None => {
                assert(false);
            },
            Some((t, n)) => {
                lemma_next_token_bounds(u);
                assert(p >= j + n);
                assert(s2.skip(j) =~= with_inserted(u, p - j, c));
                assert(u.skip(n) =~= s.skip(j + n));
                assert(ws_insert_ok(s.skip(j + n), p - j - n));
                lemma_next_token_insert_ws(u, p - j, c);
                assert(spec_next_token(s2.skip(j)) == Some((t, n)));
                assert(s2.skip(j + n) =~= with_inserted(s.skip(j + n), p - j - n, c));
                lemma_ws_insert(s.skip(j + n), p - j - n, c);
            },
        }
    }
}

/// Whitespace insensitivity at both ends at once: surrounding a text with
/// extra whitespace runs never changes its token sequence.
pub proof fn lemma_whitespace_padding(lead: Seq<char>, s: Seq<char>, trail: Seq<char>)
    requires
        forall|i: int| 0 <= i < lead.len() ==> is_ws_char(lead[i]),
        forall|i: int| 0 <= i < trail.len() ==> is_ws_char(trail[i]),
    ensures
        spec_lex(lead + s + trail).0 == spec_lex(s).0,
{
    lemma_trailing_ws_run(s, trail);
    lemma_leading_ws_run(lead, s + trail);
    assert(lead + s + trail =~= lead + (s + trail));
}

/// A lexical error: no rule of the grammar table matches the source at
/// `pos` (counted in characters).
#[derive(Debug, Clone, Copy, PartialEq, Eq, Structural)]
pub struct LexError {
    pub pos: usize,
}

fn ws_char(c: char) -> (b: bool)
    ensures
        b == is_ws_char(c),
{
    c == ' ' || c == '\t' || c == '\r' || c == '\n'
}

fn word_char(c: char) -> (b: bool)
    ensures
        b == is_word_char(c),
{
    let u = c as u32;
    (97 <= u && u <= 122) || (65 <= u && u <= 90) || c == '_'
}

fn digit_char(c: char) -> (b: bool)
    ensures
        b == is_digit_char(c),
{
    let u = c as u32;
    48 <= u && u <= 57
}

fn ws_at(src: &str, i: usize) -> (b: bool)
    requires
        i < src@.len(),
    ensures
        b == is_ws_char(src@[i as int]),
{
    ws_char(src.get_char(i))
}

fn word_at(src: &str, i: usize) -> (b: bool)
    requires
        i < src@.len(),
    ensures
        b == is_word_char(src@[i as int]),
{
    word_char(src.get_char(i))
}

fn digit_at(src: &str, i: usize) -> (b: bool)
    requires
        i < src@.len(),
    ensures
        b == is_digit_char(src@[i as int]),
{
    digit_char(src.get_char(i))
}

fn other_than_at(src: &str, i: usize, q: char) -> (b: bool)
    requires
        i < src@.len(),
    ensures
        b == (src@[i as int] != q),
{
    src.get_char(i) != q
}

/// First position at or after `pos` that holds no whitespace.
pub(crate) fn scan_ws(src: &str, pos: usize) -> (r: usize)
    requires
        pos <= src@.len(),
    ensures
        pos <= r <= src@.len(),
        r - pos == ws_count(src@.skip(pos as int)),
{
    let len = src.unicode_len();
    let mut i = pos;
    while i < len && ws_at(src, i)
        invariant
            pos <= i <= len,
            len == src@.len(),
            ws_count(src@.skip(pos as int)) == (i - pos) + ws_count(src@.skip(i as int)),
        decreases len - i,
    {
        proof {
            lemma_skip_skip(src@, i as int, 1);
        }
        i = i + 1;
    }
    i
}

/// End of the run of word characters starting at `pos`.
fn scan_word(src: &str, pos: usize) -> (r: usize)
    requires
        pos <= src@.len(),
    ensures
        pos <= r <= src@.len(),
        r - pos == word_len(src@.skip(pos as int)),
{
    let len = src.unicode_len();
    let mut i = pos;
    while i < len && word_at(src, i)
        invariant
            pos <= i <= len,
            len == src@.len(),
            word_len(src@.skip(pos as int)) == (i - pos) + word_len(src@.skip(i as int)),
        decreases len - i,
    {
        proof {
            lemma_skip_skip(src@, i as int, 1);
        }
        i = i + 1;
    }
    i
}

/// End of the run of digits starting at `pos`.
fn scan_digits(src: &str, pos: usize) -> (r: usize)
    requires
        pos <= src@.len(),
    ensures
        pos <= r <= src@.len(),
        r - pos == digits_len(src@.skip(pos as int)),
{
    let len = src.unicode_len();
    let mut i = pos;
    while i < len && digit_at(src, i)
        invariant
            pos <= i <= len,
            len == src@.len(),
            digits_len(src@.skip(pos as int)) == (i - pos) + digits_len(src@.skip(i as int)),
        decreases len - i,
    {
        proof {
            lemma_skip_skip(src@, i as int, 1);
        }
        i = i + 1;
    }
    i
}

/// Position of the first occurrence of `q` at or after `pos`, if any.
fn find_from(src: &str, pos: usize, q: char) -> (r: Option<usize>)
    requires
        pos <= src@.len(),
    ensures
        match r {
            Some(k) => pos <= k < src@.len() && find_char(src@.skip(pos as int), q) == Some(
                k - pos,
            ),
            None => find_char(src@.skip(pos as int), q) is None,
        },
{
    let len = src.unicode_len();
    let mut i = pos;
    while i < len && other_than_at(src, i, q)
        invariant
            pos <= i <= len,
            len == src@.len(),
            (match find_char(src@.skip(i as int), q) {
                Some(k) => find_char(src@.skip(pos as int), q) == Some(k + i - pos),
                None => find_char(src@.skip(pos as int), q) is None,
            }),
        decreases len - i,
    {
        proof {
            lemma_skip_skip(src@, i as int, 1);
        }
        i = i + 1;
    }
    if i < len {
        Some(i)
    } else {
        None
    }
}

fn char_digit(c: char) -> (d: u32)
    requires
        is_digit_char(c),
    ensures
        d as int == digit_val(c),
        d <= 9,
{
    (c as u32) - 48
}

/// Scans the integer literal starting at `pos`: its value and the position
/// after it, or `None` when the digit run's value does not fit an `i32`.
fn scan_int(src: &str, pos: usize) -> (r: Option<(i32, usize)>)
    requires
        pos < src@.len(),
        is_digit_char(src@[pos as int]),
    ensures
        ({
            let s = src@.skip(pos as int);
            let dl = digits_len(s);
            match r {
                Some((v, np)) => np - pos == dl && pos < np <= src@.len() && v as int
                    == digits_val(s.take(dl)) && 0 <= digits_val(s.take(dl)) <= i32::MAX as int,
                None => digits_val(s.take(dl)) > i32::MAX as int,
            }
        }),
{
    let ghost s = src@.skip(pos as int);
    let end = scan_digits(src, pos);
    let ghost dl = digits_len(s);
    proof {
        lemma_digits_len(s);
    }
    let mut val: u64 = 0;
    let mut i = pos;
    while i < end
        invariant
            pos <= i <= end <= src@.len(),
            s == src@.skip(pos as int),
            dl == digits_len(s),
            end - pos == dl,
            forall|k: int| 0 <= k < dl ==> is_digit_char(s[k]),
            val <= i32::MAX as u64,
            val as int == digits_val(s.take(i - pos)),
        decreases end - i,
    {
        let c = src.get_char(i);
        proof {
            assert(s[i - pos] == src@[i as int]);
        }
        let d = char_digit(c);
        let nv = val * 10 + (d as u64);
        proof {
            lemma_take_succ(s, i - pos);
            assert(digits_val(s.take(i - pos + 1)) == digits_val(s.take(i - pos)) * 10
                + digit_val(s[i - pos]));
        }
        if nv > (i32::MAX as u64) {
            proof {
                let ds = s.take(dl);
                assert(forall|k: int| 0 <= k < ds.len() ==> is_digit_char(ds[k]));
                lemma_digits_val_mono(ds, i - pos + 1);
                assert(ds.take(i - pos + 1) =~= s.take(i - pos + 1));
            }
            return None;
        }
        val = nv;
        i = i + 1;
    }
    Some((val as i32, end))
}

/// True when `src[start..end]` equals the keyword `kw`, character for
/// character.
pub(crate) fn word_eq(src: &str, start: usize, end: usize, kw: &str) -> (b: bool)
    requires
        start <= end <= src@.len(),
    ensures
        b == (src@.subrange(start as int, end as int) == kw@),
{
    let ghost w = src@.subrange(start as int, end as int);
    let n = end - start;
    let kn = kw.unicode_len();
    if n != kn {
        return false;
    }
    let mut i: usize = 0;
    while i < n
        invariant
            0 <= i <= n,
            n == end - start,
            start <= end <= src@.len(),
            n == kw@.len(),
            w == src@.subrange(start as int, end as int),
            forall|j: int| 0 <= j < i ==> w[j] == kw@[j],
        decreases n - i,
    {
        let a = src.get_char(start + i);
        let b = kw.get_char(i);
        proof {
            assert(w[i as int] == src@[start + i as int]);
        }
        if a != b {
            return false;
        }
        i = i + 1;
    }
    proof {
        assert(w =~= kw@);
    }
    true
}

/// Classifies the lone word `src[start..end]`: its keyword when it spells
/// one of the single-word entries of the grammar table, else an identifier.
fn word_token(src: &str, start: usize, end: usize) -> (t: Token)
    requires
        start <= end <= src@.len(),
    ensures
        t@ == single_word_token(src@.subrange(start as int, end as int)),
{
    if word_eq(src, start, end, "cap") {
        Token::Bool(false)
    } else if word_eq(src, start, end, "nocap") {
        Token::Bool(true)
    } else if word_eq(src, start, end, "be") {
        Token::Assign
    } else if word_eq(src, start, end, "felloff") {
        Token::LessThan
    } else if word_eq(src, start, end, "flexin") {
        Token::GreaterThan
    } else if word_eq(src, start, end, "not") {
        Token::Not
    } else if word_eq(src, start, end, "and") {
        Token::And
    } else if word_eq(src, start, end, "or") {
        Token::Or
    } else if word_eq(src, start, end, "rn") {
        Token::StmtEnd
    } else if word_eq(src, start, end, "lowkey") {
        Token::ScopeStart
    } else if word_eq(src, start, end, "bet") {
        Token::ScopeEnd
    } else if word_eq(src, start, end, "ngl") {
        Token::VarDecl
    } else if word_eq(src, start, end, "finna") {
        Token::FnDecl
    } else if word_eq(src, start, end, "fr") {
        Token::If
    } else if word_eq(src, start, end, "cope") {
        Token::Else
    } else {
        let name = src.substring_char(start, end).to_owned();
        Token::Ident(name)
    }
}

/// Scans the word token starting at `pos` (a word character): the multi-word
/// keywords first, greedily, then the single-word table, then an identifier.
#[verifier::rlimit(100)]
fn scan_word_token(src: &str, pos: usize) -> (r: (Token, usize))
    requires
        src@.len() <= usize::MAX,
        pos < src@.len(),
        is_word_char(src@[pos as int]),
    ensures
        pos < r.1 <= src@.len(),
        spec_word_token(src@.skip(pos as int)) == Some((r.0@, r.1 - pos)),
{
    let ghost s = src@.skip(pos as int);
    let e1 = scan_word(src, pos);
    proof {
        lemma_word_len(s);
        assert(s.skip(0) == s);
        assert(word_len(s) >= 1);
        assert(e1 - pos == word_len(s));
        assert(s.take(e1 - pos) =~= src@.subrange(pos as int, e1 as int));
    }
    if word_eq(src, pos, e1, "do") {
        let p2 = scan_ws(src, e1);
        let e2 = scan_word(src, p2);
        proof {
            lemma_skip_skip(src@, pos as int, e1 - pos);
            lemma_skip_skip(src@, pos as int, p2 - pos);
            assert(ws_count(s.skip(e1 - pos)) == p2 - e1);
            assert(word_len(s.skip(p2 - pos)) == e2 - p2);
            assert(s.subrange(p2 - pos, e2 - pos) =~= src@.subrange(p2 as int, e2 as int));
        }
        if word_eq(src, p2, e2, "not") {
            let p3 = scan_ws(src, e2);
            let e3 = scan_word(src, p3);
            proof {
                lemma_skip_skip(src@, pos as int, e2 - pos);
                lemma_skip_skip(src@, pos as int, p3 - pos);
                assert(ws_count(s.skip(e2 - pos)) == p3 - e2);
                assert(word_len(s.skip(p3 - pos)) == e3 - p3);
                assert(s.subrange(p3 - pos, e3 - pos) =~= src@.subrange(p3 as int, e3 as int));
            }
            if word_eq(src, p3, e3, "be") {
                (Token::NotEqual, e3)
            } else {
                let name = src.substring_char(pos, e1).to_owned();
                (Token::Ident(name), e1)
            }
        } else if word_eq(src, p2, e2, "be") {
            (Token::Equal, e2)
        } else {
            let name = src.substring_char(pos, e1).to_owned();
            (Token::Ident(name), e1)
        }
    } else if word_eq(src, pos, e1, "flex") {
        let p2 = scan_ws(src, e1);
        let e2 = scan_word(src, p2);
        proof {
            lemma_skip_skip(src@, pos as int, e1 - pos);
            lemma_skip_skip(src@, pos as int, p2 - pos);
            assert(ws_count(s.skip(e1 - pos)) == p2 - e1);
            assert(word_len(s.skip(p2 - pos)) == e2 - p2);
            assert(s.subrange(p2 - pos, e2 - pos) =~= src@.subrange(p2 as int, e2 as int));
        }
        if word_eq(src, p2, e2, "on") {
            (Token::GreaterThan, e2)
        } else {
            let name = src.substring_char(pos, e1).to_owned();
            (Token::Ident(name), e1)
        }
    } else {
        let t = word_token(src, pos, e1);
        (t, e1)
    }
}

/// Scans the token starting at `pos`, which holds no whitespace. `None` is
/// a lexical error at `pos`.
pub(crate) fn scan_token(src: &str, pos: usize) -> (r: Option<(Token, usize)>)
    requires
        src@.len() <= usize::MAX,
        pos < src@.len(),
        !is_ws_char(src@[pos as int]),
    ensures
        ({
            let s = src@.skip(pos as int);
            match r {
                Some((t, np)) => pos < np <= src@.len() && spec_next_token(s) == Some(
                    (t@, np - pos),
                ),
                None => spec_next_token(s) is None,
            }
        }),
{
    let ghost s = src@.skip(pos as int);
    proof {
        assert(s[0] == src@[pos as int]);
    }
    let c = src.get_char(pos);
    if word_char(c) {
        let (t, np) = scan_word_token(src, pos);
        Some((t, np))
    } else if digit_char(c) {
        proof {
            lemma_digits_len(s);
            assert(digits_len(s) >= 1);
        }
        match scan_int(src, pos) {
            Some((v, np)) => {
                proof {
                    assert(TokenModel::Int(v) == TokenModel::Int(digits_val(s.take(digits_len(s))) as i32));
                }
                Some((Token::Int(v), np))
            },
            None => None,
        }
    } else if c == '"' || c == '\'' {
        match find_from(src, pos + 1, c) {
            Some(k) => {
                proof {
                    lemma_skip_skip(src@, pos as int, 1);
                    lemma_find_char(src@.skip(pos as int + 1), c);
                    assert(s.subrange(1, k - pos) =~= src@.subrange(pos as int + 1, k as int));
                }
                let value = src.substring_char(pos + 1, k).to_owned();
                Some((Token::Str(value), k + 1))
            },
            None => {
                proof {
                    lemma_skip_skip(src@, pos as int, 1);
                }
                None
            },
        }
    } else if c == '+' {
        Some((Token::Plus, pos + 1))
    } else if c == '-' {
        Some((Token::Minus, pos + 1))
    } else if c == '*' {
        Some((Token::Asterisk, pos + 1))
    } else if c == '/' {
        Some((Token::Slash, pos + 1))
    } else if c == '<' {
        Some((Token::LessThan, pos + 1))
    } else if c == '>' {
        Some((Token::GreaterThan, pos + 1))
    } else if c == ',' {
        Some((Token::Comma, pos + 1))
    } else {
        None
    }
}

/// Tokenizes a whole source text eagerly: all its tokens in order, or the
/// lexical error that cut the scan short. The result is a pure function of
/// the text (`spec_lex`), so tokenizing twice gives identical outcomes.
pub fn tokenize(src: &str) -> (r: Result<Vec<Token>, LexError>)
    ensures
        ({
            let (toks, err) = spec_lex(src@);
            match r {
                Ok(v) => v.deep_view() == toks && err is None,
                Err(e) => err == Some(e.pos as int),
            }
        }),
{
    let len = src.unicode_len();
    let mut toks: Vec<Token> = Vec::new();
    let mut pos: usize = 0;
    proof {
        assert(src@.skip(0) == src@);
    }
    loop
        invariant
            pos <= len,
            len == src@.len(),
            ({
                let whole = spec_lex(src@);
                let rest = spec_lex(src@.skip(pos as int));
                whole.0 == toks.deep_view() + rest.0 && whole.1 == (match rest.1 {
                    Some(p) => Some(pos + p),
                    None => None,
                })
            }),
        decreases len - pos,
    {
        let ghost rest = src@.skip(pos as int);
        let j = scan_ws(src, pos);
        proof {
            lemma_ws_count(rest);
        }
        if j == len {
            proof {
                assert(spec_lex(rest) == (Seq::<TokenModel>::empty(), None::<int>));
                assert(toks.deep_view() + spec_lex(rest).0 =~= toks.deep_view());
            }
            return Ok(toks);
        }
        proof {
            lemma_skip_skip(src@, pos as int, j - pos);
            lemma_next_token_bounds(src@.skip(j as int));
        }
        match scan_token(src, j) {
            None => {
                return Err(LexError { pos: j });
            },
            Some((t, np)) => {
                proof {
                    lemma_skip_skip(src@, pos as int, np - pos);
                    let ghost old_deep = toks.deep_view();
                    assert(spec_lex(rest).0 == seq![t@] + spec_lex(src@.skip(np as int)).0);
                }
                let ghost old_toks = toks.deep_view();
                toks.push(t);
                proof {
                    assert(toks.deep_view() =~= old_toks.push(t@));
                    assert(toks.deep_view() + spec_lex(src@.skip(np as int)).0 =~= old_toks
                        + spec_lex(rest).0);
                }
                pos = np;
            },
        }
    }
}

/// Tokenizes a whole source text keeping each token's exact matched span
/// `[start, end)`, in characters — the raw material for diagnostics. The
/// tokens are those of `spec_lex`; each span starts where its token's match
/// begins (whitespace between tokens belongs to no span) and covers exactly
/// the characters the match consumed, so spans are in order and disjoint.
#[verifier::rlimit(100)]
pub fn tokenize_spanned(src: &str) -> (r: Result<Vec<(Token, usize, usize)>, LexError>)
    ensures
        ({
            let (toks, err) = spec_lex(src@);
            match r {
                Ok(v) => err is None && v@.len() == toks.len() && (forall|i: int|
                    0 <= i < v@.len() ==> #[trigger] v@[i].0@ == toks[i]) && (forall|i: int|
                    0 <= i < v@.len() ==> #[trigger] v@[i].1 < v@[i].2 <= src@.len()
                        && spec_next_token(src@.skip(v@[i].1 as int)) == Some(
                        (v@[i].0@, v@[i].2 - v@[i].1),
                    )) && (forall|i: int|
                    1 <= i < v@.len() ==> #[trigger] v@[i - 1].2 <= #[trigger] v@[i].1),
                Err(e) => err == Some(e.pos as int),
            }
        }),
{
    let len = src.unicode_len();
    let mut out: Vec<(Token, usize, usize)> = Vec::new();
    let mut pos: usize = 0;
    proof {
        assert(src@.skip(0) == src@);
    }
    loop
        invariant
            pos <= len,
            len == src@.len(),
            ({
                let whole = spec_lex(src@);
                let rest = spec_lex(src@.skip(pos as int));
                whole.0 == out@.map_values(|e: (Token, usize, usize)| e.0@) + rest.0 && whole.1
                    == (match rest.1 {
                    Some(p) => Some(pos + p),
                    None => None,
                })
            }),
            forall|i: int| 0 <= i < out@.len() ==> #[trigger] out@[i].1 < out@[i].2 <= pos,
            forall|i: int|
                0 <= i < out@.len() ==> spec_next_token(src@.skip(#[trigger] out@[i].1 as int))
                    == Some((out@[i].0@, out@[i].2 - out@[i].1)),
            forall|i: int|
                1 <= i < out@.len() ==> #[trigger] out@[i - 1].2 <= #[trigger] out@[i].1,
            out@.len() > 0 ==> out@.last().2 <= pos,
        decreases len - pos,
    {
        let ghost rest = src@.skip(pos as int);
        let j = scan_ws(src, pos);
        proof {
            lemma_ws_count(rest);
        }
        if j == len {
            proof {
                let m = out@.map_values(|e: (Token, usize, usize)| e.0@);
                assert(m + spec_lex(rest).0 =~= m);
            }
            return Ok(out);
        }
        proof {
            lemma_skip_skip(src@, pos as int, j - pos);
            lemma_next_token_bounds(src@.skip(j as int));
        }
        match scan_token(src, j) {
            None => {
                return Err(LexError { pos: j });
            },
            Some((t, np)) => {
                proof {
                    lemma_skip_skip(src@, pos as int, np - pos);
                    assert(spec_lex(rest).0 == seq![t@] + spec_lex(src@.skip(np as int)).0);
                }
                let ghost old_map = out@.map_values(|e: (Token, usize, usize)| e.0@);
                let ghost old_out = out@;
                out.push((t, j, np));
                proof {
                    assert forall|i: int|
                        1 <= i < out@.len() implies #[trigger] out@[i - 1].2
                        <= #[trigger] out@[i].1 by {
                        if i < old_out.len() {
                            assert(out@[i - 1] == old_out[i - 1] && out@[i] == old_out[i]);
                        } else {
                            assert(out@[i - 1] == old_out.last());
                            assert(old_out.last().2 <= pos);
                            assert(out@[i].1 == j);
                        }
                    }
                    assert(out@.map_values(|e: (Token, usize, usize)| e.0@) =~= old_map.push(t@));
                    assert(out@.map_values(|e: (Token, usize, usize)| e.0@) + spec_lex(
                        src@.skip(np as int),
                    ).0 =~= old_map + spec_lex(rest).0);
                }
                pos = np;
            },
        }
    }
}

} // verus!
