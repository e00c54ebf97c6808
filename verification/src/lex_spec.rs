//! The mathematical model of lexing.
//!
//! `lex` says which token (or lexical error) starts at a given index of the
//! character sequence and where the stream stands afterwards; `lex_all`
//! collects the whole token stream up to the end of input or the first
//! error. The executable [`crate::lexer::Lexer`] is proved to walk this
//! model step by step.

use vstd::prelude::*;

use crate::char_reader::{col_at, line_at, pos_after};
use crate::float_text::{is_digit, is_float_text};

verus! {

/// What a token holds, with text as a character sequence and numbers as
/// their accepted text.
#[verifier::ext_equal]
pub enum DataM {
    String(Seq<char>),
    Number(Seq<char>),
    True,
    False,
    Null,
    Colon,
    Comma,
    LeftBracket,
    RightBracket,
    LeftBrace,
    RightBrace,
    EOF,
}

/// A token with its line range and column range, both inclusive.
#[verifier::ext_equal]
pub struct TokenM {
    pub line: (int, int),
    pub pos: (int, int),
    pub data: DataM,
}

/// A lexical defect, with the ranges it spans.
#[verifier::ext_equal]
pub enum LexErrM {
    /// Input ended before a string literal's closing quote; spans from the
    /// opening quote to the point of exhaustion.
    Unclosed { line: (int, int), pos: (int, int) },
    /// A keyword (`true`, `false`, `null`) failed to match; carries the
    /// keyword that was attempted.
    BadKeyword { name: Seq<char>, line: (int, int), pos: (int, int) },
    /// A number run that is not a well-formed float text; carries the
    /// offending text.
    BadNumber { text: Seq<char>, line: (int, int), pos: (int, int) },
}

pub open spec fn is_number_char(c: char) -> bool {
    is_digit(c) || c == '-' || c == '.' || c == 'e' || c == 'E'
}

pub open spec fn is_delimiter(c: char) -> bool {
    c == ':' || c == ',' || c == '{' || c == '}' || c == '[' || c == ']'
}

/// Characters on which a token begins; everything else between tokens is
/// skipped silently.
pub open spec fn is_token_start(c: char) -> bool {
    c == '"' || c == '-' || is_digit(c) || c == 't' || c == 'f' || c == 'n' || is_delimiter(c)
}

/// Index of the first token-start character at or after `i`.
pub open spec fn skip_to_token(s: Seq<char>, i: int) -> int
    decreases s.len() - i,
{
    if i >= s.len() || is_token_start(s[i]) {
        i
    } else {
        skip_to_token(s, i + 1)
    }
}

pub proof fn lemma_skip_to_token(s: Seq<char>, i: int)
    requires
        0 <= i <= s.len(),
    ensures
        i <= skip_to_token(s, i) <= s.len(),
        skip_to_token(s, i) < s.len() ==> is_token_start(s[skip_to_token(s, i)]),
    decreases s.len() - i,
{
    if i < s.len() && !is_token_start(s[i]) {
        lemma_skip_to_token(s, i + 1);
    }
}

/// Scan a string literal's body from `i` (just after the opening quote):
/// the collected text and the index just past the closing quote, or `None`
/// if input ends first. A backslash takes the following character verbatim.
pub open spec fn scan_string(s: Seq<char>, i: int) -> Option<(Seq<char>, int)>
    decreases s.len() - i,
{
    if i >= s.len() {
        None
    } else if s[i] == '"' {
        Some((Seq::empty(), i + 1))
    } else if s[i] == '\\' {
        if i + 1 >= s.len() {
            None
        } else {
            match scan_string(s, i + 2) {
                None => None,
                Some((t, e)) => Some((seq![s[i + 1]] + t, e)),
            }
        }
    } else {
        match scan_string(s, i + 1) {
            None => None,
            Some((t, e)) => Some((seq![s[i]] + t, e)),
        }
    }
}

pub proof fn lemma_scan_string_bounds(s: Seq<char>, i: int)
    requires
        0 <= i,
    ensures
        scan_string(s, i) matches Some(r) ==> i < r.1 <= s.len(),
    decreases s.len() - i,
{
    if i < s.len() {
        if s[i] == '\\' {
            if i + 1 < s.len() {
                lemma_scan_string_bounds(s, i + 2);
            }
        } else if s[i] != '"' {
            lemma_scan_string_bounds(s, i + 1);
        }
    }
}

/// End of the greedy run of number characters beginning at `i`.
pub open spec fn number_end(s: Seq<char>, i: int) -> int
    decreases s.len() - i,
{
    if i >= s.len() || !is_number_char(s[i]) {
        i
    } else {
        number_end(s, i + 1)
    }
}

pub proof fn lemma_number_end(s: Seq<char>, i: int)
    requires
        0 <= i <= s.len(),
    ensures
        i <= number_end(s, i) <= s.len(),
    decreases s.len() - i,
{
    if i < s.len() && is_number_char(s[i]) {
        lemma_number_end(s, i + 1);
    }
}

/// The characters a keyword still owes after its first character.
pub open spec fn keyword_tail(c: char) -> Seq<char> {
    if c == 't' {
        seq!['r', 'u', 'e']
    } else if c == 'f' {
        seq!['a', 'l', 's', 'e']
    } else {
        seq!['u', 'l', 'l']
    }
}

/// The full keyword named in a mismatch report.
pub open spec fn keyword_name(c: char) -> Seq<char> {
    if c == 't' {
        seq!['t', 'r', 'u', 'e']
    } else if c == 'f' {
        seq!['f', 'a', 'l', 's', 'e']
    } else {
        seq!['n', 'u', 'l', 'l']
    }
}

pub open spec fn keyword_data(c: char) -> DataM {
    if c == 't' {
        DataM::True
    } else if c == 'f' {
        DataM::False
    } else {
        DataM::Null
    }
}

/// Outcome of holding the characters from `i` against a keyword tail.
pub enum KeywordScan {
    /// Every character matched.
    Matched,
    /// Input ended while checking.
    Exhausted,
    /// The first mismatch stands `k` characters into the tail.
    Mismatch { k: int },
}

pub open spec fn keyword_scan(s: Seq<char>, i: int, kw: Seq<char>, k: int) -> KeywordScan
    decreases kw.len() - k,
{
    if k >= kw.len() {
        KeywordScan::Matched
    } else if i + k >= s.len() {
        KeywordScan::Exhausted
    } else if s[i + k] == kw[k] {
        keyword_scan(s, i, kw, k + 1)
    } else {
        KeywordScan::Mismatch { k }
    }
}

pub proof fn lemma_keyword_scan(s: Seq<char>, i: int, kw: Seq<char>, k: int)
    requires
        0 <= k <= kw.len(),
        0 <= i,
    ensures
        keyword_scan(s, i, kw, k) matches KeywordScan::Mismatch { k: m } ==> k <= m < kw.len()
            && i + m < s.len(),
        keyword_scan(s, i, kw, k) is Matched ==> i + kw.len() <= s.len() || k == kw.len(),
    decreases kw.len() - k,
{
    if k < kw.len() && i + k < s.len() && s[i + k] == kw[k] {
        lemma_keyword_scan(s, i, kw, k + 1);
    }
}

/// The end-of-input token, reported at the position state of exhaustion.
pub open spec fn eof_token(s: Seq<char>) -> TokenM {
    let p = pos_after(s, s.len() as int);
    TokenM { line: (p.0, p.0), pos: (p.1, p.1), data: DataM::EOF }
}

/// One lexing step: a token and the count of consumed characters after it,
/// or a lexical error.
pub enum LexStep {
    Tok { t: TokenM, next: int },
    Fail { e: LexErrM },
}

/// The data a token sequence carries, with positions left aside.
pub open spec fn data_seq(toks: Seq<TokenM>) -> Seq<DataM> {
    toks.map_values(|t: TokenM| t.data)
}

proof fn lemma_data_seq_cons(t: TokenM, toks: Seq<TokenM>)
    ensures
        data_seq(seq![t] + toks) == seq![t.data] + data_seq(toks),
{
    let a = data_seq(seq![t] + toks);
    let b = seq![t.data] + data_seq(toks);
    assert forall|q: int| 0 <= q < a.len() implies a[q] == b[q] by {
        if q > 0 {
            assert((seq![t] + toks)[q] == toks[q - 1]);
            assert(data_seq(toks)[q - 1] == toks[q - 1].data);
        }
    }
    assert(a =~= b);
}

/// The token or error that lexing finds from consumed count `i`.
pub open spec fn lex(s: Seq<char>, i: int) -> LexStep {
    let j = skip_to_token(s, i);
    if j >= s.len() {
        LexStep::Tok { t: eof_token(s), next: j }
    } else {
        let c = s[j];
        if c == '"' {
            match scan_string(s, j + 1) {
                None => LexStep::Fail {
                    e: LexErrM::Unclosed {
                        line: (line_at(s, j), pos_after(s, s.len() as int).0),
                        pos: (col_at(s, j), pos_after(s, s.len() as int).1),
                    },
                },
                Some((text, e)) => LexStep::Tok {
                    t: TokenM {
                        line: (line_at(s, j), line_at(s, e - 1)),
                        pos: (col_at(s, j), col_at(s, e - 1)),
                        data: DataM::String(text),
                    },
                    next: e,
                },
            }
        } else if c == '-' || is_digit(c) {
            let e = number_end(s, j + 1);
            let text = s.subrange(j, e);
            if is_float_text(text) {
                LexStep::Tok {
                    t: TokenM {
                        line: (line_at(s, j), line_at(s, e - 1)),
                        pos: (col_at(s, j), col_at(s, e - 1)),
                        data: DataM::Number(text),
                    },
                    next: e,
                }
            } else {
                LexStep::Fail {
                    e: LexErrM::BadNumber {
                        text,
                        line: (line_at(s, j), line_at(s, e - 1)),
                        pos: (col_at(s, j), col_at(s, e - 1)),
                    },
                }
            }
        } else if c == 't' || c == 'f' || c == 'n' {
            let kw = keyword_tail(c);
            match keyword_scan(s, j + 1, kw, 0) {
                KeywordScan::Matched => LexStep::Tok {
                    t: TokenM {
                        line: (line_at(s, j), line_at(s, j)),
                        pos: (col_at(s, j), col_at(s, j) + kw.len()),
                        data: keyword_data(c),
                    },
                    next: j + 1 + kw.len(),
                },
                KeywordScan::Exhausted => LexStep::Tok { t: eof_token(s), next: j + 1 },
                KeywordScan::Mismatch { k } => LexStep::Fail {
                    e: LexErrM::BadKeyword {
                        name: keyword_name(c),
                        line: (line_at(s, j), line_at(s, j + 1 + k)),
                        pos: (col_at(s, j), col_at(s, j + 1 + k)),
                    },
                },
            }
        } else {
            LexStep::Tok {
                t: TokenM {
                    line: (line_at(s, j), line_at(s, j)),
                    pos: (col_at(s, j), col_at(s, j)),
                    data: if c == ':' {
                        DataM::Colon
                    } else if c == ',' {
                        DataM::Comma
                    } else if c == '{' {
                        DataM::LeftBrace
                    } else if c == '}' {
                        DataM::RightBrace
                    } else if c == '[' {
                        DataM::LeftBracket
                    } else {
                        DataM::RightBracket
                    },
                },
                next: j + 1,
            }
        }
    }
}

/// A token that is not the end-of-input token moves the stream strictly
/// forward, and never past the end.
pub proof fn lemma_lex_advances(s: Seq<char>, i: int)
    requires
        0 <= i <= s.len(),
    ensures
        lex(s, i) matches LexStep::Tok { t, next } ==> i <= next <= s.len() && (!(t.data is EOF)
            ==> i < next),
{
    lemma_skip_to_token(s, i);
    let j = skip_to_token(s, i);
    if j < s.len() {
        let c = s[j];
        if c == '"' {
            lemma_scan_string_bounds(s, j + 1);
        } else if c == '-' || is_digit(c) {
            lemma_number_end(s, j + 1);
        } else if c == 't' || c == 'f' || c == 'n' {
            lemma_keyword_scan(s, j + 1, keyword_tail(c), 0);
        }
    }
}

/// The whole remaining token stream: the real tokens in order, then either
/// the first lexical error or, where lexing reaches the end of input
/// cleanly, the position state of exhaustion for end-of-input reporting.
#[verifier::ext_equal]
pub struct LexOut {
    pub toks: Seq<TokenM>,
    pub err: Option<LexErrM>,
    pub end: (int, int),
}

pub open spec fn lex_all(s: Seq<char>, i: int) -> LexOut
    decreases s.len() - i,
{
    if i < 0 || i > s.len() {
        LexOut { toks: Seq::empty(), err: None, end: pos_after(s, s.len() as int) }
    } else {
        match lex(s, i) {
            LexStep::Fail { e } => LexOut {
                toks: Seq::empty(),
                err: Some(e),
                end: pos_after(s, s.len() as int),
            },
            LexStep::Tok { t, next } => {
                if t.data is EOF {
                    LexOut { toks: Seq::empty(), err: None, end: (t.line.0, t.pos.0) }
                } else {
                    proof {
                        lemma_lex_advances(s, i);
                    }
                    let rest = lex_all(s, next);
                    LexOut { toks: seq![t] + rest.toks, err: rest.err, end: rest.end }
                }
            },
        }
    }
}

/// Read one token from the modelled stream: the next real token, the
/// end-of-input token over and over once the real ones are spent, or the
/// error the stream ends in.
pub open spec fn tok_read(o: LexOut) -> Result<(TokenM, LexOut), LexErrM> {
    if o.toks.len() > 0 {
        Ok((o.toks[0], LexOut { toks: o.toks.drop_first(), err: o.err, end: o.end }))
    } else {
        match o.err {
            Some(e) => Err(e),
            None => Ok(
                (
                    TokenM {
                        line: (o.end.0, o.end.0),
                        pos: (o.end.1, o.end.1),
                        data: DataM::EOF,
                    },
                    o,
                ),
            ),
        }
    }
}

/// How one lexing step shows up through `tok_read` on the modelled stream.
pub proof fn lemma_lex_all_step(s: Seq<char>, i: int)
    requires
        0 <= i <= s.len(),
    ensures
        match lex(s, i) {
            LexStep::Tok { t, next } => {
                if t.data is EOF {
                    tok_read(lex_all(s, i)) == Ok::<_, LexErrM>((t, lex_all(s, i)))
                } else {
                    tok_read(lex_all(s, i)) == Ok::<_, LexErrM>((t, lex_all(s, next)))
                }
            },
            LexStep::Fail { e } => tok_read(lex_all(s, i)) == Err::<(TokenM, LexOut), _>(e),
        },
{
    lemma_lex_advances(s, i);
    match lex(s, i) {
        LexStep::Tok { t, next } => {
            if t.data is EOF {
                assert(lex_all(s, i).toks.len() == 0);
            } else {
                let rest = lex_all(s, next);
                assert(lex_all(s, i).toks == seq![t] + rest.toks);
                assert((seq![t] + rest.toks)[0] == t);
                assert((seq![t] + rest.toks).drop_first() =~= rest.toks);
                assert(tok_read(lex_all(s, i))->Ok_0.1 =~= rest);
            }
        },
        LexStep::Fail { e } => {},
    }
}

/// An unterminated string literal fails with an unclosed-string error
/// whose line and column ranges run from the opening quote to the point
/// the input was exhausted at.
pub proof fn lemma_unclosed_string_range(s: Seq<char>, i: int)
    requires
        0 <= i <= s.len(),
        skip_to_token(s, i) < s.len(),
        s[skip_to_token(s, i)] == '"',
        scan_string(s, skip_to_token(s, i) + 1) is None,
    ensures
        lex(s, i) == (LexStep::Fail {
            e: LexErrM::Unclosed {
                line: (line_at(s, skip_to_token(s, i)), pos_after(s, s.len() as int).0),
                pos: (col_at(s, skip_to_token(s, i)), pos_after(s, s.len() as int).1),
            },
        }),
{
}

/// A number run whose text is not a well-formed float text fails with an
/// invalid-number error that carries that text, and whose line and column
/// ranges span the entire run.
pub proof fn lemma_invalid_number_range(s: Seq<char>, i: int)
    requires
        0 <= i <= s.len(),
        skip_to_token(s, i) < s.len(),
        s[skip_to_token(s, i)] == '-' || is_digit(s[skip_to_token(s, i)]),
        !is_float_text(
            s.subrange(skip_to_token(s, i), number_end(s, skip_to_token(s, i) + 1)),
        ),
    ensures
        ({
            let j = skip_to_token(s, i);
            let en = number_end(s, j + 1);
            lex(s, i) == (LexStep::Fail {
                e: LexErrM::BadNumber {
                    text: s.subrange(j, en),
                    line: (line_at(s, j), line_at(s, en - 1)),
                    pos: (col_at(s, j), col_at(s, en - 1)),
                },
            })
        }),
{
}

/// A character on which no token begins is skipped silently: lexing from
/// it is lexing from the character after it.
pub proof fn lemma_stray_skipped(s: Seq<char>, i: int)
    requires
        0 <= i < s.len(),
        !is_token_start(s[i]),
    ensures
        lex(s, i) == lex(s, i + 1),
        lex_all(s, i) == lex_all(s, i + 1),
{
    assert(skip_to_token(s, i) == skip_to_token(s, i + 1));
}

proof fn lemma_skip_to_token_shift(u: Seq<char>, v: Seq<char>, i: int)
    requires
        0 <= i <= v.len(),
    ensures
        skip_to_token(u + v, u.len() + i) == u.len() + skip_to_token(v, i),
    decreases v.len() - i,
{
    if i < v.len() {
        assert((u + v)[u.len() + i] == v[i]);
        if !is_token_start(v[i]) {
            lemma_skip_to_token_shift(u, v, i + 1);
        }
    }
}

proof fn lemma_scan_string_shift(u: Seq<char>, v: Seq<char>, i: int)
    requires
        0 <= i <= v.len(),
    ensures
        match scan_string(v, i) {
            None => scan_string(u + v, u.len() + i) is None,
            Some((text, e)) => scan_string(u + v, u.len() + i) == Some((text, u.len() + e)),
        },
    decreases v.len() - i,
{
    if i < v.len() {
        assert((u + v)[u.len() + i] == v[i]);
        if v[i] == '\\' {
            if i + 1 < v.len() {
                assert((u + v)[u.len() + i + 1] == v[i + 1]);
                lemma_scan_string_shift(u, v, i + 2);
            }
        } else if v[i] != '"' {
            lemma_scan_string_shift(u, v, i + 1);
        }
    }
}

proof fn lemma_number_end_shift(u: Seq<char>, v: Seq<char>, i: int)
    requires
        0 <= i <= v.len(),
    ensures
        number_end(u + v, u.len() + i) == u.len() + number_end(v, i),
    decreases v.len() - i,
{
    if i < v.len() {
        assert((u + v)[u.len() + i] == v[i]);
        if is_number_char(v[i]) {
            lemma_number_end_shift(u, v, i + 1);
        }
    }
}

proof fn lemma_keyword_scan_shift(u: Seq<char>, v: Seq<char>, i: int, kw: Seq<char>, k: int)
    requires
        0 <= i,
        0 <= k <= kw.len(),
    ensures
        keyword_scan(u + v, u.len() + i, kw, k) == keyword_scan(v, i, kw, k),
    decreases kw.len() - k,
{
    if k < kw.len() && i + k < v.len() {
        assert((u + v)[u.len() + i + k] == v[i + k]);
        if v[i + k] == kw[k] {
            lemma_keyword_scan_shift(u, v, i, kw, k + 1);
        }
    }
}

/// Which token the lexer finds — and on which input it fails — depends
/// only on the characters at and after the current position; the prefix
/// already consumed moves positions but never the token data.
proof fn lemma_lex_shift(u: Seq<char>, v: Seq<char>, i: int)
    requires
        0 <= i <= v.len(),
    ensures
        match lex(v, i) {
            LexStep::Tok { t, next } => lex(u + v, u.len() + i) matches LexStep::Tok {
                t: t2,
                next: next2,
            } && t2.data == t.data && next2 == u.len() + next,
            LexStep::Fail { e } => lex(u + v, u.len() + i) is Fail,
        },
{
    lemma_skip_to_token(v, i);
    lemma_skip_to_token_shift(u, v, i);
    let j = skip_to_token(v, i);
    if j < v.len() {
        assert((u + v)[u.len() + j] == v[j]);
        let c = v[j];
        if c == '"' {
            lemma_scan_string_shift(u, v, j + 1);
        } else if c == '-' || is_digit(c) {
            lemma_number_end_shift(u, v, j + 1);
            lemma_number_end(v, j + 1);
            let en = number_end(v, j + 1);
            assert((u + v).subrange(u.len() + j, u.len() + en) =~= v.subrange(j, en));
        } else if c == 't' || c == 'f' || c == 'n' {
            lemma_keyword_scan_shift(u, v, j + 1, keyword_tail(c), 0);
        }
    }
}

/// The token data of the whole remaining stream, and whether it ends in a
/// lexical error, depend only on the unconsumed suffix.
pub proof fn lemma_lex_all_suffix(u: Seq<char>, v: Seq<char>, i: int)
    requires
        0 <= i <= v.len(),
    ensures
        data_seq(lex_all(u + v, u.len() + i).toks) == data_seq(lex_all(v, i).toks),
        lex_all(u + v, u.len() + i).err is Some <==> lex_all(v, i).err is Some,
    decreases v.len() - i,
{
    lemma_lex_shift(u, v, i);
    lemma_lex_advances(v, i);
    match lex(v, i) {
        LexStep::Tok { t, next } => {
            if t.data is EOF {
                assert(data_seq(lex_all(u + v, u.len() + i).toks) =~= data_seq(
                    lex_all(v, i).toks,
                ));
            } else {
                lemma_lex_all_suffix(u, v, next);
                let r1 = lex_all(v, next);
                let r2 = lex_all(u + v, u.len() + next);
                let t2 = lex(u + v, u.len() + i)->Tok_t;
                assert(lex_all(v, i).toks == seq![t] + r1.toks);
                assert(lex_all(u + v, u.len() + i).toks == seq![t2] + r2.toks);
                lemma_data_seq_cons(t, r1.toks);
                lemma_data_seq_cons(t2, r2.toks);
            }
        },
        LexStep::Fail { e } => {
            assert(data_seq(lex_all(u + v, u.len() + i).toks) =~= data_seq(lex_all(v, i).toks));
        },
    }
}


} // verus!
