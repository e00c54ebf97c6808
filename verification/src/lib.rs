//! A verified parser for a JSON-like grammar.
//!
//! Bytes come in already decoded as characters; a [`char_reader::CharReader`]
//! hands them out one at a time with lookahead and pushback, a
//! [`lexer::Lexer`] turns them into tokens with exact line/column ranges, and
//! a [`Parser`] builds a dynamically-typed tree by recursive descent. Every
//! step is specified against a mathematical model of the same pipeline:
//! lexing against [`lex_spec::lex`], parsing against
//! [`parse_spec::parse_result`].

pub mod char_reader;
pub mod float_text;
pub mod lex_spec;
pub mod lexer;
pub mod parse_spec;

use vstd::prelude::*;

use crate::lex_spec::{lemma_lex_advances, lemma_lex_all_step, lex, lex_all, LexStep};
use crate::lexer::{err_view, Data, Lexer, Token};
use crate::parse_spec::{
    array_result, lemma_array_result_agrees, lemma_object_result_agrees, lemma_parse_fuel_mono,
    lemma_parse_result_agrees, msg_text, object_result, parse_array, parse_object, parse_result,
    parse_value, MsgK, NodeM, PRes,
};

verus! {

/// The tree a parse produces. A number keeps the text it was lexed from,
/// guaranteed to be a well-formed float text; an object keeps its members
/// in first-appearance order, with keys unique.
#[derive(Debug)]
pub enum Node {
    String(String),
    Number(String),
    True,
    False,
    Null,
    Array(Vec<Node>),
    Object(Vec<(String, Node)>),
    EOF,
}

/// The modelled value of a sequence of nodes, in order.
pub open spec fn nodes_view(s: Seq<Node>) -> Seq<NodeM>
    decreases s,
{
    if s.len() == 0 {
        Seq::empty()
    } else {
        nodes_view(s.drop_last()).push(node_view(s.last()))
    }
}

/// The modelled value of an object's member list: the mapping the members
/// build up, a later entry overwriting an earlier one with the same key.
pub open spec fn members_view(s: Seq<(String, Node)>) -> Map<Seq<char>, NodeM>
    decreases s,
{
    if s.len() == 0 {
        Map::empty()
    } else {
        members_view(s.drop_last()).insert(s.last().0@, node_view(s.last().1))
    }
}

/// The modelled value of a node.
pub open spec fn node_view(n: Node) -> NodeM
    decreases n,
{
    match n {
        Node::String(s) => NodeM::String(s@),
        Node::Number(s) => NodeM::Number(s@),
        Node::True => NodeM::True,
        Node::False => NodeM::False,
        Node::Null => NodeM::Null,
        Node::Array(v) => NodeM::Array(nodes_view(v@)),
        Node::Object(m) => NodeM::Object(members_view(m@)),
        Node::EOF => NodeM::EOF,
    }
}

impl View for Node {
    type V = NodeM;

    open spec fn view(&self) -> NodeM {
        node_view(*self)
    }
}

/// No two members of one list carry the same key.
pub open spec fn keys_distinct(s: Seq<(String, Node)>) -> bool {
    forall|i: int, j: int|
        #![trigger s[i].0@, s[j].0@]
        0 <= i < j < s.len() ==> s[i].0@ != s[j].0@
}

pub open spec fn nodes_keys_unique(s: Seq<Node>) -> bool
    decreases s,
{
    if s.len() == 0 {
        true
    } else {
        nodes_keys_unique(s.drop_last()) && node_keys_unique(s.last())
    }
}

pub open spec fn members_keys_unique(s: Seq<(String, Node)>) -> bool
    decreases s,
{
    if s.len() == 0 {
        true
    } else {
        members_keys_unique(s.drop_last()) && node_keys_unique(s.last().1)
    }
}

/// Every object in the tree keeps its keys unique.
pub open spec fn node_keys_unique(n: Node) -> bool
    decreases n,
{
    match n {
        Node::Array(v) => nodes_keys_unique(v@),
        Node::Object(m) => keys_distinct(m@) && members_keys_unique(m@),
        _ => true,
    }
}

proof fn lemma_members_keys_unique_all(s: Seq<(String, Node)>)
    requires
        forall|i: int| 0 <= i < s.len() ==> node_keys_unique(#[trigger] s[i].1),
    ensures
        members_keys_unique(s),
    decreases s.len(),
{
    if s.len() > 0 {
        lemma_members_keys_unique_all(s.drop_last());
    }
}

proof fn lemma_nodes_keys_unique_all(s: Seq<Node>)
    requires
        forall|i: int| 0 <= i < s.len() ==> node_keys_unique(#[trigger] s[i]),
    ensures
        nodes_keys_unique(s),
    decreases s.len(),
{
    if s.len() > 0 {
        lemma_nodes_keys_unique_all(s.drop_last());
    }
}

/// Appending a member with a fresh key inserts it into the mapping.
proof fn lemma_members_view_push(s: Seq<(String, Node)>, k: String, v: Node)
    ensures
        members_view(s.push((k, v))) == members_view(s).insert(k@, node_view(v)),
{
    assert(s.push((k, v)).drop_last() =~= s);
    assert(s.push((k, v)).last() == (k, v));
}

/// Appending a node pushes its modelled value.
proof fn lemma_nodes_view_push(s: Seq<Node>, v: Node)
    ensures
        nodes_view(s.push(v)) == nodes_view(s).push(node_view(v)),
{
    assert(s.push(v).drop_last() =~= s);
    assert(s.push(v).last() == v);
}

/// Overwriting the member that carries `k` — with no later member carrying
/// it — updates the mapping at `k`.
proof fn lemma_members_view_update(s: Seq<(String, Node)>, i: int, k: String, v: Node)
    requires
        0 <= i < s.len(),
        s[i].0@ == k@,
        forall|j: int| i < j < s.len() ==> s[j].0@ != k@,
    ensures
        members_view(s.update(i, (k, v))) == members_view(s).insert(k@, node_view(v)),
    decreases s.len(),
{
    let s2 = s.update(i, (k, v));
    if i == s.len() - 1 {
        assert(s2.drop_last() =~= s.drop_last());
        assert(s2.last() == (k, v));
        assert(members_view(s.drop_last()).insert(k@, node_view(v)) =~= members_view(
            s.drop_last(),
        ).insert(s.last().0@, node_view(s.last().1)).insert(k@, node_view(v)));
    } else {
        lemma_members_view_update(s.drop_last(), i, k, v);
        assert(s2.drop_last() =~= s.drop_last().update(i, (k, v)));
        assert(s2.last() == s.last());
        assert(members_view(s.drop_last()).insert(k@, node_view(v)).insert(
            s.last().0@,
            node_view(s.last().1),
        ) =~= members_view(s.drop_last()).insert(s.last().0@, node_view(s.last().1)).insert(
            k@,
            node_view(v),
        ));
    }
}

/// Add a member: an existing entry with the same key is overwritten in
/// place, a fresh key goes to the end.
#[verifier::loop_isolation(false)]
fn insert_member(members: &mut Vec<(String, Node)>, key: String, value: Node)
    requires
        keys_distinct(old(members)@),
        forall|i: int| 0 <= i < old(members)@.len() ==> node_keys_unique(
            #[trigger] old(members)@[i].1,
        ),
        node_keys_unique(value),
    ensures
        members_view(final(members)@) == members_view(old(members)@).insert(
            key@,
            node_view(value),
        ),
        keys_distinct(final(members)@),
        forall|i: int| 0 <= i < final(members)@.len() ==> node_keys_unique(
            #[trigger] final(members)@[i].1,
        ),
{
    let n = members.len();
    let mut i: usize = 0;
    while i < n
        invariant
            0 <= i <= n,
            n == members@.len(),
            members@ == old(members)@,
            forall|j: int| 0 <= j < i ==> members@[j].0@ != key@,
        decreases n - i,
    {
        if members[i].0 == key {
            let ghost before = members@;
            members.remove(i);
            members.insert(i, (key, value));
            proof {
                assert(members@ =~= before.update(i as int, (key, value)));
                assert forall|j: int| i < j < before.len() implies before[j].0@ != key@ by {
                    assert(before[i as int].0@ != before[j].0@);
                }
                lemma_members_view_update(before, i as int, key, value);
                assert forall|a: int, b: int|
                    0 <= a < b < members@.len() implies members@[a].0@ != members@[b].0@ by {
                    assert(before[a].0@ != before[b].0@);
                }
            }
            return ;
        }
        i = i + 1;
    }
    let ghost before = members@;
    members.push((key, value));
    proof {
        lemma_members_view_push(before, key, value);
    }
}

/// A failure of a `parse` call.
#[derive(Debug)]
pub enum Error {
    /// A token stood where the grammar forbids it: the line range and
    /// column range parsing stood at, and what was expected instead.
    SyntaxError((usize, usize), (usize, usize), String),
    /// Producing a token failed; the lexical error is carried unchanged.
    LexerError(lexer::Error),
}

/// Builds trees from the character stream by recursive descent, one
/// top-level value per `parse` call.
pub struct Parser {
    lexer: Lexer,
    line: (usize, usize),
    pos: (usize, usize),
}

impl Parser {
    /// The characters this parser walks.
    pub closed spec fn stream(self) -> Seq<char> {
        self.lexer.stream()
    }

    /// How many characters have been consumed.
    pub closed spec fn consumed(self) -> int {
        self.lexer.consumed()
    }

    /// Between calls the lexer's lookahead rests on the consumed prefix.
    pub closed spec fn synced(self) -> bool {
        self.lexer.synced()
    }

    pub closed spec fn wf(self) -> bool {
        self.lexer.wf()
    }

    /// Line range of the most recently read token, used in syntax errors.
    pub closed spec fn last_line(self) -> (int, int) {
        (self.line.0 as int, self.line.1 as int)
    }

    /// Column range of the most recently read token, used in syntax errors.
    pub closed spec fn last_pos(self) -> (int, int) {
        (self.pos.0 as int, self.pos.1 as int)
    }

    /// What well-formedness guarantees about the counters.
    pub proof fn lemma_wf_bounds(p: Parser)
        requires
            p.wf(),
        ensures
            0 <= p.consumed() <= p.stream().len() < usize::MAX,
    {
        Lexer::lemma_wf_bounds(p.lexer);
    }

    pub fn new(chars: Vec<char>) -> (r: Parser)
        requires
            chars@.len() < usize::MAX,
        ensures
            r.wf(),
            r.stream() == chars@,
            r.consumed() == 0,
            r.synced(),
            r.last_line() == (1int, 1int),
            r.last_pos() == (1int, 1int),
    {
        Parser { lexer: Lexer::new(chars), line: (1, 1), pos: (1, 1) }
    }

    /// Read one token and remember its ranges for syntax errors.
    fn read_token(&mut self) -> (r: Result<Token, Error>)
        requires
            old(self).wf(),
        ensures
            final(self).wf(),
            final(self).stream() == old(self).stream(),
            old(self).synced() ==> ({
                let s = old(self).stream();
                match lex(s, old(self).consumed()) {
                    LexStep::Tok { t, next } => {
                        &&& r matches Ok(tok) && tok@ == t
                        &&& final(self).consumed() == next
                        &&& (!(t.data is EOF) ==> final(self).synced())
                        &&& (t.data is EOF && final(self).synced() ==> final(self).consumed()
                            == old(self).stream().len())
                        &&& final(self).last_line() == t.line
                        &&& final(self).last_pos() == t.pos
                    },
                    LexStep::Fail { e } => {
                        &&& r matches Err(err) && err matches Error::LexerError(le) && err_view(
                            le,
                        ) == e && !(le is EOF) && !(le is ReaderError)
                        &&& final(self).last_line() == old(self).last_line()
                        &&& final(self).last_pos() == old(self).last_pos()
                    },
                }
            }),
            !old(self).synced() ==> (r matches Ok(tok) && tok@.data is EOF
                && final(self).consumed() == old(self).consumed() && !final(self).synced()),
    {
        match self.lexer.read() {
            Ok(token) => {
                self.line = token.line;
                self.pos = token.pos;
                Ok(token)
            },
            Err(e) => Err(Error::LexerError(e)),
        }
    }

    /// A syntax error at the ranges of the most recently read token.
    fn syntax_error(&self, message: &str) -> (r: Error)
        ensures
            r matches Error::SyntaxError(l, p, m) && (l.0 as int, l.1 as int)
                == self.last_line() && (p.0 as int, p.1 as int) == self.last_pos() && m@
                == message@,
    {
        Error::SyntaxError(self.line, self.pos, String::from_str(message))
    }

    /// Parse the next top-level value: the tree the model assigns, the
    /// end-of-input sentinel once the stream is spent, or the model's
    /// error, positioned exactly.
    pub fn parse(&mut self) -> (r: Result<Node, Error>)
        requires
            old(self).wf(),
        ensures
            final(self).wf(),
            final(self).stream() == old(self).stream(),
            old(self).synced() ==> ({
                let out = lex_all(old(self).stream(), old(self).consumed());
                match parse_result(out) {
                    PRes::Done { n, rest } => {
                        &&& r matches Ok(node) && node@ == n && node_keys_unique(node)
                        &&& !(n is EOF) ==> {
                            &&& lex_all(final(self).stream(), final(self).consumed()) == rest
                            &&& final(self).synced()
                            &&& final(self).consumed() > old(self).consumed()
                        }
                        &&& n is EOF ==> {
                            &&& out.toks.len() == 0 && out.err is None
                            &&& final(self).last_line() == (out.end.0, out.end.0)
                            &&& final(self).last_pos() == (out.end.1, out.end.1)
                            &&& (final(self).synced() ==> lex_all(
                                old(self).stream(),
                                final(self).consumed(),
                            ) == out)
                        }
                    },
                    PRes::Syntax { line, pos, msg } => r matches Err(e) && e
                        matches Error::SyntaxError(l, p, m) && (l.0 as int, l.1 as int) == line
                        && (p.0 as int, p.1 as int) == pos && m@ == msg_text(msg),
                    PRes::Lexical { e } => r matches Err(err) && err matches Error::LexerError(
                        le,
                    ) && err_view(le) == e && !(le is EOF) && !(le is ReaderError),
                    PRes::OutOfFuel => false,
                }
            }),
            !old(self).synced() ==> (r matches Ok(node) && node@ == NodeM::EOF
                && final(self).consumed() == old(self).consumed() && !final(self).synced()),
        decreases old(self).stream().len() - old(self).consumed(), 0int,
    {
        let ghost s = old(self).stream();
        let ghost c0 = old(self).consumed();
        let ghost out0 = lex_all(s, c0);
        let ghost was_synced = old(self).synced();
        proof {
            Lexer::lemma_wf_bounds(self.lexer);
            if was_synced {
                lemma_lex_all_step(s, c0);
                lemma_lex_advances(s, c0);
            }
        }
        let token = match self.read_token() {
            Ok(t) => t,
            Err(e) => {
                proof {
                    if was_synced {
                        lemma_parse_result_agrees(out0, 1);
                    }
                }
                return Err(e);
            },
        };
        match token.data {
            Data::LeftBrace => {
                proof {
                    // A read in the desynced state only gives the
                    // end-of-input token, never `{`.
                    assert(was_synced);
                }
                let ghost c1 = self.consumed();
                let ghost out1 = lex_all(s, c1);
                let result = self.parse_object();
                proof {
                    let fo = choose|f: nat|
                        !(parse_object(out1, Map::empty(), f) is OutOfFuel);
                    assert(parse_value(out0, fo + 1) == parse_object(out1, Map::empty(), fo));
                    lemma_parse_result_agrees(out0, fo + 1);
                }
                result
            },
            Data::LeftBracket => {
                proof {
                    // As above: only the end-of-input token comes back
                    // desynced.
                    assert(was_synced);
                }
                let ghost c1 = self.consumed();
                let ghost out1 = lex_all(s, c1);
                let result = self.parse_array();
                proof {
                    let fa = choose|f: nat|
                        !(parse_array(out1, Seq::empty(), f) is OutOfFuel);
                    assert(parse_value(out0, fa + 1) == parse_array(out1, Seq::empty(), fa));
                    lemma_parse_result_agrees(out0, fa + 1);
                }
                result
            },
            Data::String(text) => {
                proof {
                    if was_synced {
                        lemma_parse_result_agrees(out0, 1);
                    }
                }
                Ok(Node::String(text))
            },
            Data::Number(text) => {
                proof {
                    if was_synced {
                        lemma_parse_result_agrees(out0, 1);
                    }
                }
                Ok(Node::Number(text))
            },
            Data::True => {
                proof {
                    if was_synced {
                        lemma_parse_result_agrees(out0, 1);
                    }
                }
                Ok(Node::True)
            },
            Data::False => {
                proof {
                    if was_synced {
                        lemma_parse_result_agrees(out0, 1);
                    }
                }
                Ok(Node::False)
            },
            Data::Null => {
                proof {
                    if was_synced {
                        lemma_parse_result_agrees(out0, 1);
                    }
                }
                Ok(Node::Null)
            },
            Data::EOF => {
                proof {
                    if was_synced {
                        lemma_parse_result_agrees(out0, 1);
                        if self.synced() {
                            // In step at end of input: the remaining stream
                            // is the spent stream the call began on.
                            assert(lex_all(s, self.consumed()) =~= out0);
                        }
                    }
                }
                Ok(Node::EOF)
            },
            _ => {
                proof {
                    // As above: only the end-of-input token comes back
                    // desynced.
                    assert(was_synced);
                    lemma_parse_result_agrees(out0, 1);
                }
                Err(
                    self.syntax_error(
                        "value must be one of: boolean, null, string, number, object, array",
                    ),
                )
            },
        }
    }

    /// Parse an object's members, the opening `{` already consumed.
    #[verifier::loop_isolation(false)]
    fn parse_object(&mut self) -> (r: Result<Node, Error>)
        requires
            old(self).wf(),
            old(self).synced(),
        ensures
            final(self).wf(),
            final(self).stream() == old(self).stream(),
            ({
                let out = lex_all(old(self).stream(), old(self).consumed());
                match object_result(out, Map::empty()) {
                    PRes::Done { n, rest } => {
                        &&& r matches Ok(node) && node@ == n && node_keys_unique(node) && n
                            is Object
                        &&& lex_all(final(self).stream(), final(self).consumed()) == rest
                        &&& final(self).synced()
                        &&& final(self).consumed() > old(self).consumed()
                    },
                    PRes::Syntax { line, pos, msg } => r matches Err(e) && e
                        matches Error::SyntaxError(l, p, m) && (l.0 as int, l.1 as int) == line
                        && (p.0 as int, p.1 as int) == pos && m@ == msg_text(msg),
                    PRes::Lexical { e } => r matches Err(err) && err matches Error::LexerError(
                        le,
                    ) && err_view(le) == e && !(le is EOF) && !(le is ReaderError),
                    PRes::OutOfFuel => false,
                }
            }),
        decreases old(self).stream().len() - old(self).consumed(), 1int,
    {
        let ghost s = old(self).stream();
        let ghost c0 = old(self).consumed();
        let ghost out0 = lex_all(s, c0);
        let mut members: Vec<(String, Node)> = Vec::new();
        proof {
            Lexer::lemma_wf_bounds(self.lexer);
            assert(members_view(members@) =~= Map::<Seq<char>, NodeM>::empty());
            assert forall|f: nat|
                !(#[trigger] parse_object(lex_all(s, c0), members_view(members@), f)
                    is OutOfFuel) implies object_result(out0, Map::empty()) == parse_object(
                lex_all(s, c0),
                members_view(members@),
                f,
            ) by {
                lemma_object_result_agrees(out0, Map::empty(), f);
            }
        }
        loop
            invariant
                self.wf(),
                self.synced(),
                self.stream() == s,
                c0 <= self.consumed() <= s.len(),
                keys_distinct(members@),
                forall|i: int| 0 <= i < members@.len() ==> node_keys_unique(
                    #[trigger] members@[i].1,
                ),
                forall|f: nat|
                    !(#[trigger] parse_object(
                        lex_all(s, self.consumed()),
                        members_view(members@),
                        f,
                    ) is OutOfFuel) ==> object_result(out0, Map::empty()) == parse_object(
                        lex_all(s, self.consumed()),
                        members_view(members@),
                        f,
                    ),
            decreases s.len() - self.consumed(),
        {
            let ghost cc = self.consumed();
            let ghost cur = lex_all(s, cc);
            let ghost mm = members_view(members@);
            proof {
                Lexer::lemma_wf_bounds(self.lexer);
                lemma_lex_all_step(s, cc);
                lemma_lex_advances(s, cc);
            }
            let key_token = match self.read_token() {
                Ok(t) => t,
                Err(e) => {
                    proof {
                        assert(object_result(out0, Map::empty()) == parse_object(cur, mm, 1));
                    }
                    return Err(e);
                },
            };
            let key = match key_token.data {
                Data::String(k) => k,
                _ => {
                    proof {
                        assert(object_result(out0, Map::empty()) == parse_object(cur, mm, 1));
                    }
                    return Err(self.syntax_error("object key must be a string"));
                },
            };
            let ghost kview = key@;
            let ghost c2 = self.consumed();
            proof {
                Lexer::lemma_wf_bounds(self.lexer);
                lemma_lex_all_step(s, c2);
                lemma_lex_advances(s, c2);
            }
            let colon_token = match self.read_token() {
                Ok(t) => t,
                Err(e) => {
                    proof {
                        assert(object_result(out0, Map::empty()) == parse_object(cur, mm, 1));
                    }
                    return Err(e);
                },
            };
            match colon_token.data {
                Data::Colon => {},
                _ => {
                    proof {
                        assert(object_result(out0, Map::empty()) == parse_object(cur, mm, 1));
                    }
                    return Err(self.syntax_error("object key must be followed by `:`"));
                },
            }
            let ghost c3 = self.consumed();
            let ghost out3 = lex_all(s, c3);
            let value = match self.parse() {
                Ok(n) => n,
                Err(e) => {
                    proof {
                        let fv = choose|f: nat| !(parse_value(out3, f) is OutOfFuel);
                        assert(parse_object(cur, mm, fv + 1) == parse_value(out3, fv));
                        assert(object_result(out0, Map::empty()) == parse_object(
                            cur,
                            mm,
                            fv + 1,
                        ));
                    }
                    return Err(e);
                },
            };
            let ghost fv = choose|f: nat| !(parse_value(out3, f) is OutOfFuel);
            let ghost vview = node_view(value);
            if let Node::EOF = value {
                proof {
                    assert(parse_object(cur, mm, fv + 1) == (PRes::Syntax {
                        line: (out3.end.0, out3.end.0),
                        pos: (out3.end.1, out3.end.1),
                        msg: MsgK::ObjectValue,
                    }));
                    assert(object_result(out0, Map::empty()) == parse_object(cur, mm, fv + 1));
                }
                return Err(
                    self.syntax_error(
                        "object value must be one of: boolean, null, string, number, object, array",
                    ),
                );
            }
            let ghost c4 = self.consumed();
            let ghost rest3 = lex_all(s, c4);
            proof {
                assert(!(vview is EOF));
                Lexer::lemma_wf_bounds(self.lexer);
                lemma_lex_all_step(s, c4);
                lemma_lex_advances(s, c4);
            }
            insert_member(&mut members, key, value);
            let next_token = match self.read_token() {
                Ok(t) => t,
                Err(e) => {
                    proof {
                        assert(parse_object(cur, mm, fv + 1) is Lexical);
                        assert(object_result(out0, Map::empty()) == parse_object(
                            cur,
                            mm,
                            fv + 1,
                        ));
                    }
                    return Err(e);
                },
            };
            match next_token.data {
                Data::Comma => {
                    let ghost c5 = self.consumed();
                    proof {
                        let mm2 = members_view(members@);
                        assert forall|f: nat|
                            !(#[trigger] parse_object(lex_all(s, c5), mm2, f) is OutOfFuel)
                                implies object_result(out0, Map::empty()) == parse_object(
                            lex_all(s, c5),
                            mm2,
                            f,
                        ) by {
                            let big = (fv + f + 2) as nat;
                            lemma_parse_fuel_mono(
                                out3,
                                Map::empty(),
                                Seq::empty(),
                                fv,
                                (big - 1) as nat,
                            );
                            lemma_parse_fuel_mono(
                                lex_all(s, c5),
                                mm2,
                                Seq::empty(),
                                f,
                                (big - 1) as nat,
                            );
                            assert(parse_object(cur, mm, big) == parse_object(
                                lex_all(s, c5),
                                mm2,
                                f,
                            ));
                        }
                    }
                },
                Data::RightBrace => {
                    let ghost c5 = self.consumed();
                    proof {
                        let mm2 = members_view(members@);
                        let big = (fv + 2) as nat;
                        lemma_parse_fuel_mono(
                            out3,
                            Map::empty(),
                            Seq::empty(),
                            fv,
                            (big - 1) as nat,
                        );
                        assert(parse_object(cur, mm, big) == (PRes::Done {
                            n: NodeM::Object(mm2),
                            rest: lex_all(s, c5),
                        }));
                        assert(object_result(out0, Map::empty()) == parse_object(cur, mm, big));
                        lemma_members_keys_unique_all(members@);
                    }
                    return Ok(Node::Object(members));
                },
                _ => {
                    proof {
                        let big = (fv + 2) as nat;
                        lemma_parse_fuel_mono(
                            out3,
                            Map::empty(),
                            Seq::empty(),
                            fv,
                            (big - 1) as nat,
                        );
                        assert(parse_object(cur, mm, big) is Syntax);
                        assert(object_result(out0, Map::empty()) == parse_object(cur, mm, big));
                    }
                    return Err(
                        self.syntax_error("object member must be followed by `,` or `}`"),
                    );
                },
            }
        }
    }

    /// Parse an array's elements, the opening `[` already consumed.
    #[verifier::loop_isolation(false)]
    fn parse_array(&mut self) -> (r: Result<Node, Error>)
        requires
            old(self).wf(),
            old(self).synced(),
        ensures
            final(self).wf(),
            final(self).stream() == old(self).stream(),
            ({
                let out = lex_all(old(self).stream(), old(self).consumed());
                match array_result(out, Seq::empty()) {
                    PRes::Done { n, rest } => {
                        &&& r matches Ok(node) && node@ == n && node_keys_unique(node) && n
                            is Array
                        &&& lex_all(final(self).stream(), final(self).consumed()) == rest
                        &&& final(self).synced()
                        &&& final(self).consumed() > old(self).consumed()
                    },
                    PRes::Syntax { line, pos, msg } => r matches Err(e) && e
                        matches Error::SyntaxError(l, p, m) && (l.0 as int, l.1 as int) == line
                        && (p.0 as int, p.1 as int) == pos && m@ == msg_text(msg),
                    PRes::Lexical { e } => r matches Err(err) && err matches Error::LexerError(
                        le,
                    ) && err_view(le) == e && !(le is EOF) && !(le is ReaderError),
                    PRes::OutOfFuel => false,
                }
            }),
        decreases old(self).stream().len() - old(self).consumed(), 1int,
    {
        let ghost s = old(self).stream();
        let ghost c0 = old(self).consumed();
        let ghost out0 = lex_all(s, c0);
        let mut elements: Vec<Node> = Vec::new();
        proof {
            Lexer::lemma_wf_bounds(self.lexer);
            assert(nodes_view(elements@) =~= Seq::<NodeM>::empty());
            assert forall|f: nat|
                !(#[trigger] parse_array(lex_all(s, c0), nodes_view(elements@), f)
                    is OutOfFuel) implies array_result(out0, Seq::empty()) == parse_array(
                lex_all(s, c0),
                nodes_view(elements@),
                f,
            ) by {
                lemma_array_result_agrees(out0, Seq::empty(), f);
            }
        }
        loop
            invariant
                self.wf(),
                self.synced(),
                self.stream() == s,
                c0 <= self.consumed() <= s.len(),
                forall|i: int| 0 <= i < elements@.len() ==> node_keys_unique(
                    #[trigger] elements@[i],
                ),
                forall|f: nat|
                    !(#[trigger] parse_array(
                        lex_all(s, self.consumed()),
                        nodes_view(elements@),
                        f,
                    ) is OutOfFuel) ==> array_result(out0, Seq::empty()) == parse_array(
                        lex_all(s, self.consumed()),
                        nodes_view(elements@),
                        f,
                    ),
            decreases s.len() - self.consumed(),
        {
            let ghost cc = self.consumed();
            let ghost cur = lex_all(s, cc);
            let ghost aa = nodes_view(elements@);
            let value = match self.parse() {
                Ok(n) => n,
                Err(e) => {
                    proof {
                        let fv = choose|f: nat| !(parse_value(cur, f) is OutOfFuel);
                        assert(parse_array(cur, aa, fv + 1) == parse_value(cur, fv));
                        assert(array_result(out0, Seq::empty()) == parse_array(
                            cur,
                            aa,
                            fv + 1,
                        ));
                    }
                    return Err(e);
                },
            };
            let ghost fv = choose|f: nat| !(parse_value(cur, f) is OutOfFuel);
            let ghost vview = node_view(value);
            if let Node::EOF = value {
                proof {
                    assert(parse_array(cur, aa, fv + 1) == (PRes::Syntax {
                        line: (cur.end.0, cur.end.0),
                        pos: (cur.end.1, cur.end.1),
                        msg: MsgK::ArrayValue,
                    }));
                    assert(array_result(out0, Seq::empty()) == parse_array(cur, aa, fv + 1));
                }
                return Err(
                    self.syntax_error(
                        "array element must be one of: boolean, null, string, number, object, array",
                    ),
                );
            }
            let ghost c4 = self.consumed();
            let ghost rest3 = lex_all(s, c4);
            proof {
                assert(!(vview is EOF));
                Lexer::lemma_wf_bounds(self.lexer);
                lemma_lex_all_step(s, c4);
                lemma_lex_advances(s, c4);
            }
            let ghost before = elements@;
            elements.push(value);
            proof {
                lemma_nodes_view_push(before, value);
            }
            let next_token = match self.read_token() {
                Ok(t) => t,
                Err(e) => {
                    proof {
                        assert(parse_array(cur, aa, fv + 1) is Lexical);
                        assert(array_result(out0, Seq::empty()) == parse_array(
                            cur,
                            aa,
                            fv + 1,
                        ));
                    }
                    return Err(e);
                },
            };
            match next_token.data {
                Data::Comma => {
                    let ghost c5 = self.consumed();
                    proof {
                        let aa2 = nodes_view(elements@);
                        assert forall|f: nat|
                            !(#[trigger] parse_array(lex_all(s, c5), aa2, f) is OutOfFuel)
                                implies array_result(out0, Seq::empty()) == parse_array(
                            lex_all(s, c5),
                            aa2,
                            f,
                        ) by {
                            let big = (fv + f + 2) as nat;
                            lemma_parse_fuel_mono(
                                cur,
                                Map::empty(),
                                Seq::empty(),
                                fv,
                                (big - 1) as nat,
                            );
                            lemma_parse_fuel_mono(
                                lex_all(s, c5),
                                Map::empty(),
                                aa2,
                                f,
                                (big - 1) as nat,
                            );
                            assert(parse_array(cur, aa, big) == parse_array(
                                lex_all(s, c5),
                                aa2,
                                f,
                            ));
                        }
                    }
                },
                Data::RightBracket => {
                    let ghost c5 = self.consumed();
                    proof {
                        let aa2 = nodes_view(elements@);
                        let big = (fv + 2) as nat;
                        lemma_parse_fuel_mono(
                            cur,
                            Map::empty(),
                            Seq::empty(),
                            fv,
                            (big - 1) as nat,
                        );
                        assert(parse_array(cur, aa, big) == (PRes::Done {
                            n: NodeM::Array(aa2),
                            rest: lex_all(s, c5),
                        }));
                        assert(array_result(out0, Seq::empty()) == parse_array(cur, aa, big));
                        lemma_nodes_keys_unique_all(elements@);
                    }
                    return Ok(Node::Array(elements));
                },
                _ => {
                    proof {
                        let big = (fv + 2) as nat;
                        lemma_parse_fuel_mono(
                            cur,
                            Map::empty(),
                            Seq::empty(),
                            fv,
                            (big - 1) as nat,
                        );
                        assert(parse_array(cur, aa, big) is Syntax);
                        assert(array_result(out0, Seq::empty()) == parse_array(cur, aa, big));
                    }
                    return Err(
                        self.syntax_error("array element must be followed by `,` or `]`"),
                    );
                },
            }
        }
    }
}

} // verus!
