//! The lexer: characters in, one token per call out.
//!
//! `Lexer::read` returns exactly the token (or lexical error) that the model
//! function [`lex`] assigns to the current position of the stream, end of
//! input included — exhaustion at the top level is a token, not an error.

use vstd::prelude::*;

use crate::char_reader::{self, col_at, line_at, lemma_pos_after_bounds, pos_after, CharReader};
use crate::float_text::{float_text_valid, is_digit, is_float_text};
use crate::lex_spec::{
    is_delimiter, keyword_data, keyword_name, keyword_scan, keyword_tail, lemma_keyword_scan,
    lemma_skip_to_token, lex, number_end, scan_string, skip_to_token, DataM, KeywordScan, LexErrM,
    LexStep, TokenM,
};

verus! {

/// A token: a payload with the line range and column range it spans, both
/// ends inclusive.
#[derive(Debug)]
pub struct Token {
    pub line: (usize, usize),
    pub pos: (usize, usize),
    pub data: Data,
}

/// What a token holds. A number keeps the text it was read from, which is
/// guaranteed to be a well-formed float text; callers convert it to a float
/// where they need the value.
#[derive(Debug)]
pub enum Data {
    String(String),
    Number(String),
    True,
    False,
    Null,
    Colon,
    Comma,
    LeftBracket,
    RightBracket,
    LeftBrace,
    RightBrace,
    EOF,
}

impl View for Data {
    type V = DataM;

    open spec fn view(&self) -> DataM {
        match self {
            Data::String(s) => DataM::String(s@),
            Data::Number(s) => DataM::Number(s@),
            Data::True => DataM::True,
            Data::False => DataM::False,
            Data::Null => DataM::Null,
            Data::Colon => DataM::Colon,
            Data::Comma => DataM::Comma,
            Data::LeftBracket => DataM::LeftBracket,
            Data::RightBracket => DataM::RightBracket,
            Data::LeftBrace => DataM::LeftBrace,
            Data::RightBrace => DataM::RightBrace,
            Data::EOF => DataM::EOF,
        }
    }
}

impl View for Token {
    type V = TokenM;

    open spec fn view(&self) -> TokenM {
        TokenM {
            line: (self.line.0 as int, self.line.1 as int),
            pos: (self.pos.0 as int, self.pos.1 as int),
            data: self.data@,
        }
    }
}

/// A failure while producing a token.
#[derive(Debug)]
pub enum Error {
    /// The source is exhausted; carries the (line, column-rest) state at the
    /// point of exhaustion. Internal: `read` turns it into the end-of-input
    /// token at the top level.
    EOF(usize, usize),
    /// Input ended inside a string literal; the ranges run from the opening
    /// quote to the point of exhaustion.
    UnclosedStringLiteral((usize, usize), (usize, usize)),
    /// The underlying source failed. The reader of this crate walks a
    /// sequence already in memory, which cannot fail, so this is never
    /// produced; it remains part of the error surface for callers.
    ReaderError(String),
    /// A keyword failed to match; carries the keyword that was attempted
    /// and the ranges from its first character to the mismatch.
    InvalidToken(String, (usize, usize), (usize, usize)),
    /// A number run that is not a well-formed float text; carries the
    /// offending text and the ranges it spans.
    InvalidNumber(String, (usize, usize), (usize, usize)),
}

/// The model value of a lexical error. `EOF` and `ReaderError` never leave
/// `read` and have no model.
pub open spec fn err_view(e: Error) -> LexErrM {
    match e {
        Error::UnclosedStringLiteral(l, p) => LexErrM::Unclosed {
            line: (l.0 as int, l.1 as int),
            pos: (p.0 as int, p.1 as int),
        },
        Error::InvalidToken(n, l, p) => LexErrM::BadKeyword {
            name: n@,
            line: (l.0 as int, l.1 as int),
            pos: (p.0 as int, p.1 as int),
        },
        Error::InvalidNumber(t, l, p) => LexErrM::BadNumber {
            text: t@,
            line: (l.0 as int, l.1 as int),
            pos: (p.0 as int, p.1 as int),
        },
        _ => arbitrary(),
    }
}

/// Relies on `String: FromIterator<char>` through `Iterator::collect`: the
/// collected string holds exactly the characters of `v`, in order.
#[verifier::external_body]
fn chars_to_string(v: &Vec<char>) -> (r: String)
    ensures
        r@ == v@,
{
    v.iter().collect()
}

/// Turns the character stream into tokens, one per `read` call.
pub struct Lexer(CharReader);

impl Lexer {
    /// The characters this lexer walks.
    pub closed spec fn stream(self) -> Seq<char> {
        self.0.stream()
    }

    /// How many characters have been consumed.
    pub closed spec fn consumed(self) -> int {
        self.0.consumed()
    }

    /// How far the reader's lookahead cursor has moved.
    pub closed spec fn peeked(self) -> int {
        self.0.peeked()
    }

    /// Between tokens the lookahead cursor rests on the consumed prefix.
    pub closed spec fn synced(self) -> bool {
        self.0.consumed() == self.0.peeked()
    }

    /// Well-formed between `read` calls: either in step, or the lookahead
    /// was spent against the end of input (after which every further `read`
    /// reports end of input).
    pub closed spec fn wf(self) -> bool {
        &&& self.0.wf()
        &&& (self.synced() || self.0.peeked() == self.0.stream().len())
    }

    /// What well-formedness guarantees about the counters.
    pub proof fn lemma_wf_bounds(l: Lexer)
        requires
            l.wf(),
        ensures
            0 <= l.consumed() <= l.stream().len() < usize::MAX,
            l.peeked() <= l.stream().len(),
    {
        CharReader::lemma_wf_bounds(l.0);
    }

    pub fn new(chars: Vec<char>) -> (r: Lexer)
        requires
            chars@.len() < usize::MAX,
        ensures
            r.wf(),
            r.stream() == chars@,
            r.consumed() == 0,
            r.synced(),
    {
        Lexer(CharReader::new(chars))
    }

    /// Consume the next character, which the caller has already seen
    /// through `peek`.
    fn discard_next(&mut self) -> (r: (char, usize, usize))
        requires
            old(self).0.wf(),
            old(self).consumed() < old(self).stream().len(),
        ensures
            final(self).0.wf(),
            final(self).stream() == old(self).stream(),
            ({
                let s = old(self).stream();
                let c = old(self).consumed();
                &&& r.0 == s[c] && r.1 as int == line_at(s, c) && r.2 as int == col_at(s, c)
                &&& final(self).consumed() == c + 1
                &&& final(self).peeked() == if old(self).peeked() > c + 1 {
                    old(self).peeked()
                } else {
                    c + 1
                }
            }),
    {
        match self.0.read() {
            Ok(t) => t,
            Err(_) => unreached(),
        }
    }

    /// Consume the next character, or report exhaustion.
    fn next(&mut self) -> (r: Result<(char, usize, usize), Error>)
        requires
            old(self).0.wf(),
        ensures
            final(self).0.wf(),
            final(self).stream() == old(self).stream(),
            ({
                let s = old(self).stream();
                let c = old(self).consumed();
                if c < s.len() {
                    &&& r matches Ok(t) && t.0 == s[c] && t.1 as int == line_at(s, c) && t.2
                        as int == col_at(s, c)
                    &&& final(self).consumed() == c + 1
                    &&& final(self).peeked() == if old(self).peeked() > c + 1 {
                        old(self).peeked()
                    } else {
                        c + 1
                    }
                } else {
                    &&& r matches Err(e) && e == Error::EOF(
                        pos_after(s, c).0 as usize,
                        pos_after(s, c).1 as usize,
                    )
                    &&& *final(self) == *old(self)
                }
            }),
    {
        match self.0.read() {
            Ok(t) => Ok(t),
            Err(char_reader::Error::EOF(line, pos)) => Err(Error::EOF(line, pos)),
        }
    }

    /// Look at the character under the lookahead cursor and move the cursor
    /// past it, or report exhaustion.
    fn peek(&mut self) -> (r: Result<(char, usize, usize), Error>)
        requires
            old(self).0.wf(),
        ensures
            final(self).0.wf(),
            final(self).stream() == old(self).stream(),
            final(self).consumed() == old(self).consumed(),
            ({
                let s = old(self).stream();
                let p = old(self).peeked();
                if p < s.len() {
                    &&& r matches Ok(t) && t.0 == s[p] && t.1 as int == line_at(s, p) && t.2
                        as int == col_at(s, p)
                    &&& final(self).peeked() == p + 1
                    &&& final(self).0.can_push_back()
                } else {
                    &&& r matches Err(e) && e == Error::EOF(
                        pos_after(s, p).0 as usize,
                        pos_after(s, p).1 as usize,
                    )
                    &&& *final(self) == *old(self)
                }
            }),
    {
        match self.0.peek() {
            Ok(t) => Ok(t),
            Err(char_reader::Error::EOF(line, pos)) => Err(Error::EOF(line, pos)),
        }
    }

    /// Step the lookahead cursor back over the most recent peek.
    fn peek_back(&mut self)
        requires
            old(self).0.wf(),
            old(self).0.can_push_back(),
        ensures
            final(self).0.wf(),
            final(self).stream() == old(self).stream(),
            final(self).consumed() == old(self).consumed(),
            final(self).peeked() == old(self).peeked() - 1,
    {
        self.0.peek_back();
    }

    /// Produce the next token, or the end-of-input token once the stream is
    /// spent, or the first lexical error. The result is exactly what the
    /// model assigns: `lex(stream, consumed)`.
    #[verifier::loop_isolation(false)]
    pub fn read(&mut self) -> (r: Result<Token, Error>)
        requires
            old(self).wf(),
        ensures
            final(self).wf(),
            final(self).stream() == old(self).stream(),
            old(self).synced() ==> ({
                let s = old(self).stream();
                match lex(s, old(self).consumed()) {
                    LexStep::Tok { t, next } => {
                        &&& r matches Ok(tok) && tok@ == t
                        &&& final(self).consumed() == next
                        &&& (!(t.data is EOF) ==> final(self).synced())
                        &&& (t.data is EOF && final(self).synced() ==> final(self).consumed()
                            == old(self).stream().len())
                    },
                    LexStep::Fail { e } => {
                        &&& r matches Err(err) && err_view(err) == e && !(err is EOF)
                            && !(err is ReaderError)
                    },
                }
            }),
            !old(self).synced() ==> (r matches Ok(tok) && tok@.data is EOF && *final(self)
                == *old(self)),
    {
        let ghost s = old(self).stream();
        let ghost c0 = old(self).consumed();
        let ghost was_synced = old(self).synced();
        proof {
            CharReader::lemma_wf_bounds(self.0);
        }
        loop
            invariant
                self.0.wf(),
                self.synced() || self.peeked() == self.stream().len(),
                self.stream() == s,
                !was_synced ==> *self == *old(self),
                was_synced ==> {
                    &&& self.synced()
                    &&& 0 <= c0 <= self.consumed() <= s.len()
                    &&& skip_to_token(s, c0) == skip_to_token(s, self.consumed())
                },
            decreases s.len() - self.consumed(),
        {
            proof {
                CharReader::lemma_wf_bounds(self.0);
            }
            let step = self.peek();
            match step {
                Err(e) => {
                    // Exhausted: the end-of-input token, not an error.
                    let (line, pos) = match e {
                        Error::EOF(line, pos) => (line, pos),
                        _ => unreached(),
                    };
                    proof {
                        lemma_pos_after_bounds(s, s.len() as int);
                        if was_synced {
                            lemma_skip_to_token(s, self.consumed());
                        }
                    }
                    return Ok(Token { line: (line, line), pos: (pos, pos), data: Data::EOF });
                },
                Ok((c, _, _)) => {
                    let result = if c == '"' {
                        self.parse_string()
                    } else if c == '-' || ('0' <= c && c <= '9') {
                        self.parse_number()
                    } else if c == 't' || c == 'f' || c == 'n' {
                        self.parse_static(c)
                    } else if c == ':' || c == ',' || c == '{' || c == '}' || c == '[' || c
                        == ']' {
                        self.parse_delimiter(c)
                    } else {
                        // Anything else between tokens is skipped silently.
                        self.discard_next();
                        continue;
                    };
                    let res = match result {
                        Err(Error::EOF(line, pos)) => Ok(
                            Token { line: (line, line), pos: (pos, pos), data: Data::EOF },
                        ),
                        Err(e) => Err(e),
                        Ok(token) => Ok(token),
                    };
                    proof {
                        lemma_pos_after_bounds(s, s.len() as int);
                        if was_synced {
                            lemma_skip_to_token(s, c0);
                        }
                    }
                    return res;
                },
            }
        }
    }

    /// Lex a string literal. The opening quote stands at the consumed
    /// position, already seen through `peek`.
    #[verifier::loop_isolation(false)]
    fn parse_string(&mut self) -> (r: Result<Token, Error>)
        requires
            old(self).0.wf(),
            old(self).peeked() == old(self).consumed() + 1,
            0 <= old(self).consumed() < old(self).stream().len(),
            old(self).stream()[old(self).consumed()] == '"',
        ensures
            final(self).wf(),
            final(self).stream() == old(self).stream(),
            ({
                let s = old(self).stream();
                let c = old(self).consumed();
                match scan_string(s, c + 1) {
                    Some((text, e)) => {
                        &&& r matches Ok(tok) && tok@ == TokenM {
                            line: (line_at(s, c), line_at(s, e - 1)),
                            pos: (col_at(s, c), col_at(s, e - 1)),
                            data: DataM::String(text),
                        }
                        &&& final(self).consumed() == e
                        &&& final(self).synced()
                    },
                    None => {
                        &&& r matches Err(err) && err_view(err) == (LexErrM::Unclosed {
                            line: (line_at(s, c), pos_after(s, s.len() as int).0),
                            pos: (col_at(s, c), pos_after(s, s.len() as int).1),
                        }) && err is UnclosedStringLiteral
                    },
                }
            }),
    {
        let ghost s = old(self).stream();
        let ghost c0 = old(self).consumed();
        let mut buf: Vec<char> = Vec::new();
        // The opening quote.
        let opening = self.discard_next();
        let initial_line = opening.1;
        let initial_pos = opening.2;
        let mut final_line: usize = 0;
        let mut final_pos: usize = 0;
        let mut done = false;
        while !done
            invariant
                self.0.wf(),
                self.synced(),
                self.stream() == s,
                c0 + 1 <= self.consumed() <= s.len(),
                !done ==> match scan_string(s, self.consumed() as int) {
                    None => scan_string(s, c0 + 1) is None,
                    Some((t, e)) => scan_string(s, c0 + 1) == Some((buf@ + t, e)),
                },
                done ==> {
                    &&& scan_string(s, c0 + 1) == Some((buf@, self.consumed() as int))
                    &&& self.consumed() >= 1
                    &&& (final_line as int, final_pos as int) == (
                        line_at(s, self.consumed() - 1),
                        col_at(s, self.consumed() - 1),
                    )
                },
            decreases s.len() - self.consumed(),
        {
            proof {
                CharReader::lemma_wf_bounds(self.0);
            }
            let step = self.peek();
            match step {
                Err(e) => {
                    proof {
                        lemma_pos_after_bounds(s, s.len() as int);
                    }
                    let (line, pos) = match e {
                        Error::EOF(line, pos) => (line, pos),
                        _ => unreached(),
                    };
                    return Err(
                        Error::UnclosedStringLiteral((initial_line, line), (initial_pos, pos)),
                    );
                },
                Ok((c, _, _)) => {
                    if c == '"' {
                        // The closing quote.
                        let ghost cq = self.consumed();
                        let t = self.discard_next();
                        final_line = t.1;
                        final_pos = t.2;
                        proof {
                            assert(scan_string(s, cq) == Some((Seq::<char>::empty(), cq + 1)));
                            assert(buf@ + Seq::<char>::empty() =~= buf@);
                        }
                        done = true;
                    } else if c == '\\' {
                        // The backslash is dropped; the following character
                        // is taken verbatim.
                        self.discard_next();
                        let escaped = self.next();
                        match escaped {
                            Err(e) => {
                                proof {
                                    lemma_pos_after_bounds(s, s.len() as int);
                                }
                                let (line, pos) = match e {
                                    Error::EOF(line, pos) => (line, pos),
                                    _ => unreached(),
                                };
                                return Err(
                                    Error::UnclosedStringLiteral(
                                        (initial_line, line),
                                        (initial_pos, pos),
                                    ),
                                );
                            },
                            Ok((c2, _, _)) => {
                                let ghost before = buf@;
                                buf.push(c2);
                                proof {
                                    if scan_string(s, self.consumed() as int) is Some {
                                        assert(before + (seq![c2] + scan_string(
                                            s,
                                            self.consumed() as int,
                                        )->Some_0.0) =~= buf@ + scan_string(
                                            s,
                                            self.consumed() as int,
                                        )->Some_0.0);
                                    }
                                }
                            },
                        }
                    } else {
                        let t = self.discard_next();
                        let ghost before = buf@;
                        buf.push(t.0);
                        proof {
                            if scan_string(s, self.consumed() as int) is Some {
                                assert(before + (seq![t.0] + scan_string(
                                    s,
                                    self.consumed() as int,
                                )->Some_0.0) =~= buf@ + scan_string(
                                    s,
                                    self.consumed() as int,
                                )->Some_0.0);
                            }
                        }
                    }
                },
            }
        }
        Ok(
            Token {
                line: (initial_line, final_line),
                pos: (initial_pos, final_pos),
                data: Data::String(chars_to_string(&buf)),
            },
        )
    }

    /// Lex a number: the greedy run of number characters, then the float
    /// grammar check. The first character stands at the consumed position,
    /// already seen through `peek`.
    #[verifier::loop_isolation(false)]
    fn parse_number(&mut self) -> (r: Result<Token, Error>)
        requires
            old(self).0.wf(),
            old(self).peeked() == old(self).consumed() + 1,
            0 <= old(self).consumed() < old(self).stream().len(),
            old(self).stream()[old(self).consumed()] == '-' || is_digit(
                old(self).stream()[old(self).consumed()],
            ),
        ensures
            final(self).wf(),
            final(self).stream() == old(self).stream(),
            ({
                let s = old(self).stream();
                let c = old(self).consumed();
                let e = number_end(s, c + 1);
                let text = s.subrange(c, e);
                if is_float_text(text) {
                    &&& r matches Ok(tok) && tok@ == TokenM {
                        line: (line_at(s, c), line_at(s, e - 1)),
                        pos: (col_at(s, c), col_at(s, e - 1)),
                        data: DataM::Number(text),
                    }
                    &&& final(self).consumed() == e
                    &&& final(self).synced()
                } else {
                    &&& r matches Err(err) && err_view(err) == (LexErrM::BadNumber {
                        text,
                        line: (line_at(s, c), line_at(s, e - 1)),
                        pos: (col_at(s, c), col_at(s, e - 1)),
                    }) && err is InvalidNumber
                    &&& final(self).consumed() == e
                    &&& final(self).synced()
                }
            }),
    {
        let ghost s = old(self).stream();
        let ghost c0 = old(self).consumed();
        let first = self.discard_next();
        let mut buf: Vec<char> = Vec::new();
        buf.push(first.0);
        let initial_line = first.1;
        let initial_pos = first.2;
        let mut final_line = initial_line;
        let mut final_pos = initial_pos;
        proof {
            assert(buf@ =~= s.subrange(c0, c0 + 1));
        }
        let mut done = false;
        while !done
            invariant
                self.0.wf(),
                self.synced(),
                self.stream() == s,
                c0 + 1 <= self.consumed() <= s.len(),
                buf@ == s.subrange(c0, self.consumed() as int),
                (final_line as int, final_pos as int) == (
                    line_at(s, self.consumed() - 1),
                    col_at(s, self.consumed() - 1),
                ),
                !done ==> number_end(s, c0 + 1) == number_end(s, self.consumed() as int),
                done ==> self.consumed() == number_end(s, c0 + 1),
            decreases s.len() - self.consumed() + (if done {
                0int
            } else {
                1int
            }),
        {
            let step = self.peek();
            match step {
                Err(_) => {
                    // The next read reports end of input; the run ends here.
                    done = true;
                },
                Ok((c, _, _)) => {
                    if c == '-' || ('0' <= c && c <= '9') || c == '.' || c == 'e' || c == 'E' {
                        let t = self.discard_next();
                        buf.push(t.0);
                        final_line = t.1;
                        final_pos = t.2;
                        proof {
                            assert(buf@ =~= s.subrange(c0, self.consumed() as int));
                        }
                    } else {
                        self.peek_back();
                        done = true;
                    }
                },
            }
        }
        let text = chars_to_string(&buf);
        if float_text_valid(&buf) {
            Ok(
                Token {
                    line: (initial_line, final_line),
                    pos: (initial_pos, final_pos),
                    data: Data::Number(text),
                },
            )
        } else {
            Err(
                Error::InvalidNumber(text, (initial_line, final_line), (initial_pos, final_pos)),
            )
        }
    }

    /// Lex a keyword (`true`, `false` or `null`), whose first character `c`
    /// stands at the consumed position, already seen through `peek`. The
    /// remaining characters are verified through `peek` and consumed in one
    /// step on a full match.
    #[verifier::loop_isolation(false)]
    fn parse_static(&mut self, c: char) -> (r: Result<Token, Error>)
        requires
            old(self).0.wf(),
            old(self).peeked() == old(self).consumed() + 1,
            0 <= old(self).consumed() < old(self).stream().len(),
            old(self).stream()[old(self).consumed()] == c,
            c == 't' || c == 'f' || c == 'n',
        ensures
            final(self).wf(),
            final(self).stream() == old(self).stream(),
            ({
                let s = old(self).stream();
                let j = old(self).consumed();
                let kw = keyword_tail(c);
                match keyword_scan(s, j + 1, kw, 0) {
                    KeywordScan::Matched => {
                        &&& r matches Ok(tok) && tok@ == TokenM {
                            line: (line_at(s, j), line_at(s, j)),
                            pos: (col_at(s, j), col_at(s, j) + kw.len()),
                            data: keyword_data(c),
                        }
                        &&& final(self).consumed() == j + 1 + kw.len()
                        &&& final(self).synced()
                    },
                    KeywordScan::Exhausted => {
                        &&& r matches Err(err) && err == Error::EOF(
                            pos_after(s, s.len() as int).0 as usize,
                            pos_after(s, s.len() as int).1 as usize,
                        )
                        &&& final(self).consumed() == j + 1
                        &&& final(self).peeked() == s.len()
                    },
                    KeywordScan::Mismatch { k } => {
                        &&& r matches Err(err) && err_view(err) == (LexErrM::BadKeyword {
                            name: keyword_name(c),
                            line: (line_at(s, j), line_at(s, j + 1 + k)),
                            pos: (col_at(s, j), col_at(s, j + 1 + k)),
                        }) && err is InvalidToken
                        &&& final(self).consumed() == j + 1
                        &&& final(self).synced()
                    },
                }
            }),
    {
        let ghost s = old(self).stream();
        let ghost j = old(self).consumed();
        let first = self.discard_next();
        let initial_line = first.1;
        let initial_position = first.2;
        let source: Vec<char>;
        let name: &str;
        let data: Data;
        if c == 't' {
            source = vec!['r', 'u', 'e'];
            name = "true";
            data = Data::True;
        } else if c == 'f' {
            source = vec!['a', 'l', 's', 'e'];
            name = "false";
            data = Data::False;
        } else {
            source = vec!['u', 'l', 'l'];
            name = "null";
            data = Data::Null;
        }
        proof {
            assert(source@ =~= keyword_tail(c));
            reveal_strlit("true");
            reveal_strlit("false");
            reveal_strlit("null");
            assert(name@ =~= keyword_name(c));
        }
        let ghost kw = keyword_tail(c);
        let mut k: usize = 0;
        while k < source.len()
            invariant
                self.0.wf(),
                self.stream() == s,
                self.consumed() == j + 1,
                self.peeked() == j + 1 + k,
                0 <= k <= kw.len(),
                source@ == kw,
                name@ == keyword_name(c),
                j + 1 + k <= s.len(),
                keyword_scan(s, j + 1, kw, 0) == keyword_scan(s, j + 1, kw, k as int),
            decreases source@.len() - k,
        {
            let step = self.peek();
            match step {
                Err(e) => {
                    return Err(e);
                },
                Ok((tc, line, position)) => {
                    if tc != source[k] {
                        self.0.reset_peek();
                        return Err(
                            Error::InvalidToken(
                                String::from_str(name),
                                (initial_line, line),
                                (initial_position, position),
                            ),
                        );
                    }
                    k = k + 1;
                },
            }
        }
        proof {
            lemma_keyword_scan(s, j + 1, kw, 0);
            lemma_pos_after_bounds(s, j);
            CharReader::lemma_wf_bounds(self.0);
        }
        match self.0.consume(source.len()) {
            Ok(_) => Ok(
                Token {
                    line: (initial_line, initial_line),
                    pos: (initial_position, initial_position + source.len()),
                    data,
                },
            ),
            Err(_) => unreached(),
        }
    }

    /// Lex a one-character structural token, whose character `c` stands at
    /// the consumed position, already seen through `peek`.
    fn parse_delimiter(&mut self, c: char) -> (r: Result<Token, Error>)
        requires
            old(self).0.wf(),
            old(self).peeked() == old(self).consumed() + 1,
            0 <= old(self).consumed() < old(self).stream().len(),
            old(self).stream()[old(self).consumed()] == c,
            is_delimiter(c),
        ensures
            final(self).wf(),
            final(self).stream() == old(self).stream(),
            ({
                let s = old(self).stream();
                let j = old(self).consumed();
                &&& r matches Ok(tok) && tok@ == TokenM {
                    line: (line_at(s, j), line_at(s, j)),
                    pos: (col_at(s, j), col_at(s, j)),
                    data: if c == ':' {
                        DataM::Colon
                    } else if c == ',' {
                        DataM::Comma
                    } else if c == '{' {
                        DataM::LeftBrace
                    } else if c == '}' {
                        DataM::RightBrace
                    } else if c == '[' {
                        DataM::LeftBracket
                    } else {
                        DataM::RightBracket
                    },
                }
                &&& final(self).consumed() == j + 1
                &&& final(self).synced()
            }),
    {
        let data = if c == ':' {
            Data::Colon
        } else if c == ',' {
            Data::Comma
        } else if c == '{' {
            Data::LeftBrace
        } else if c == '}' {
            Data::RightBrace
        } else if c == '[' {
            Data::LeftBracket
        } else {
            Data::RightBracket
        };
        let t = self.discard_next();
        Ok(Token { line: (t.1, t.1), pos: (t.2, t.2), data })
    }
}

} // verus!
