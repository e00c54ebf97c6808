//! The mathematical model of parsing.
//!
//! A fuel-bounded recursion over the modelled token stream says which tree
//! (or which positioned error) a `parse` call returns. Fuel only bounds the
//! recursion depth of the definition: by `lemma_parse_fuel_mono` every fuel
//! on which the recursion completes gives the same answer, and
//! [`parse_result`] names that common answer. The executable
//! [`crate::Parser`] is proved to return exactly `parse_result` of the
//! stream it stands on.

use vstd::prelude::*;

use crate::lex_spec::{
    data_seq, is_token_start, lemma_lex_all_suffix, lemma_stray_skipped, lex_all, skip_to_token,
    tok_read, DataM, LexErrM, LexOut,
};

verus! {

/// The tree a parse produces: scalars, arrays in element order, objects as
/// a mapping from unique keys, and the end-of-input sentinel.
#[verifier::ext_equal]
pub enum NodeM {
    String(Seq<char>),
    Number(Seq<char>),
    True,
    False,
    Null,
    Array(Seq<NodeM>),
    Object(Map<Seq<char>, NodeM>),
    EOF,
}

/// The expectation a syntax error reports.
pub enum MsgK {
    Value,
    ObjectKey,
    ObjectColon,
    ObjectValue,
    ObjectNext,
    ArrayValue,
    ArrayNext,
}

/// The exact message text for each expectation.
pub open spec fn msg_text(m: MsgK) -> Seq<char> {
    match m {
        MsgK::Value => "value must be one of: boolean, null, string, number, object, array"@,
        MsgK::ObjectKey => "object key must be a string"@,
        MsgK::ObjectColon => "object key must be followed by `:`"@,
        MsgK::ObjectValue => "object value must be one of: boolean, null, string, number, object, array"@,
        MsgK::ObjectNext => "object member must be followed by `,` or `}`"@,
        MsgK::ArrayValue => "array element must be one of: boolean, null, string, number, object, array"@,
        MsgK::ArrayNext => "array element must be followed by `,` or `]`"@,
    }
}

/// Outcome of a modelled parse: a tree and the remaining stream, a syntax
/// error with the range of the offending token, a lexical error passed
/// through, or exhaustion of the definition's fuel.
#[verifier::ext_equal]
pub enum PRes {
    Done { n: NodeM, rest: LexOut },
    Syntax { line: (int, int), pos: (int, int), msg: MsgK },
    Lexical { e: LexErrM },
    OutOfFuel,
}

/// Parse one value: an object after `{`, an array after `[`, a scalar from
/// its own token, or the end-of-input sentinel.
pub open spec fn parse_value(o: LexOut, fuel: nat) -> PRes
    decreases fuel, 2int,
{
    if fuel == 0 {
        PRes::OutOfFuel
    } else {
        match tok_read(o) {
            Err(e) => PRes::Lexical { e },
            Ok((t, rest)) => match t.data {
                crate::lex_spec::DataM::LeftBrace => parse_object(
                    rest,
                    Map::empty(),
                    (fuel - 1) as nat,
                ),
                crate::lex_spec::DataM::LeftBracket => parse_array(
                    rest,
                    Seq::empty(),
                    (fuel - 1) as nat,
                ),
                crate::lex_spec::DataM::String(x) => PRes::Done { n: NodeM::String(x), rest },
                crate::lex_spec::DataM::Number(x) => PRes::Done { n: NodeM::Number(x), rest },
                crate::lex_spec::DataM::True => PRes::Done { n: NodeM::True, rest },
                crate::lex_spec::DataM::False => PRes::Done { n: NodeM::False, rest },
                crate::lex_spec::DataM::Null => PRes::Done { n: NodeM::Null, rest },
                crate::lex_spec::DataM::EOF => PRes::Done { n: NodeM::EOF, rest },
                _ => PRes::Syntax { line: t.line, pos: t.pos, msg: MsgK::Value },
            },
        }
    }
}

/// Parse object members from after `{` or after a `,`: a string key, `:`,
/// a value, then `,` to continue or `}` to finish. A repeated key
/// overwrites the earlier value.
pub open spec fn parse_object(o: LexOut, acc: Map<Seq<char>, NodeM>, fuel: nat) -> PRes
    decreases fuel, 1int,
{
    if fuel == 0 {
        PRes::OutOfFuel
    } else {
        match tok_read(o) {
            Err(e) => PRes::Lexical { e },
            Ok((t, rest)) => match t.data {
                crate::lex_spec::DataM::String(k) => match tok_read(rest) {
                    Err(e) => PRes::Lexical { e },
                    Ok((t2, rest2)) => {
                        if t2.data is Colon {
                            match parse_value(rest2, (fuel - 1) as nat) {
                                PRes::Done { n, rest: rest3 } => {
                                    if n is EOF {
                                        PRes::Syntax {
                                            line: (rest3.end.0, rest3.end.0),
                                            pos: (rest3.end.1, rest3.end.1),
                                            msg: MsgK::ObjectValue,
                                        }
                                    } else {
                                        match tok_read(rest3) {
                                            Err(e) => PRes::Lexical { e },
                                            Ok((t4, rest4)) => {
                                                if t4.data is Comma {
                                                    parse_object(
                                                        rest4,
                                                        acc.insert(k, n),
                                                        (fuel - 1) as nat,
                                                    )
                                                } else if t4.data is RightBrace {
                                                    PRes::Done {
                                                        n: NodeM::Object(acc.insert(k, n)),
                                                        rest: rest4,
                                                    }
                                                } else {
                                                    PRes::Syntax {
                                                        line: t4.line,
                                                        pos: t4.pos,
                                                        msg: MsgK::ObjectNext,
                                                    }
                                                }
                                            },
                                        }
                                    }
                                },
                                other => other,
                            }
                        } else {
                            PRes::Syntax { line: t2.line, pos: t2.pos, msg: MsgK::ObjectColon }
                        }
                    },
                },
                _ => PRes::Syntax { line: t.line, pos: t.pos, msg: MsgK::ObjectKey },
            },
        }
    }
}

/// Parse array elements from after `[` or after a `,`: a value, then `,`
/// to continue or `]` to finish.
pub open spec fn parse_array(o: LexOut, acc: Seq<NodeM>, fuel: nat) -> PRes
    decreases fuel, 1int,
{
    if fuel == 0 {
        PRes::OutOfFuel
    } else {
        match parse_value(o, (fuel - 1) as nat) {
            PRes::Done { n, rest } => {
                if n is EOF {
                    PRes::Syntax {
                        line: (rest.end.0, rest.end.0),
                        pos: (rest.end.1, rest.end.1),
                        msg: MsgK::ArrayValue,
                    }
                } else {
                    match tok_read(rest) {
                        Err(e) => PRes::Lexical { e },
                        Ok((t2, rest2)) => {
                            if t2.data is Comma {
                                parse_array(rest2, acc.push(n), (fuel - 1) as nat)
                            } else if t2.data is RightBracket {
                                PRes::Done { n: NodeM::Array(acc.push(n)), rest: rest2 }
                            } else {
                                PRes::Syntax { line: t2.line, pos: t2.pos, msg: MsgK::ArrayNext }
                            }
                        },
                    }
                }
            },
            other => other,
        }
    }
}

/// Fuel only bounds the definition's recursion depth: once the recursion
/// completes on some fuel, every larger fuel gives the same answer.
pub proof fn lemma_parse_fuel_mono(
    o: LexOut,
    acc_m: Map<Seq<char>, NodeM>,
    acc_s: Seq<NodeM>,
    f1: nat,
    f2: nat,
)
    requires
        f1 <= f2,
    ensures
        !(parse_value(o, f1) is OutOfFuel) ==> parse_value(o, f2) == parse_value(o, f1),
        !(parse_object(o, acc_m, f1) is OutOfFuel) ==> parse_object(o, acc_m, f2)
            == parse_object(o, acc_m, f1),
        !(parse_array(o, acc_s, f1) is OutOfFuel) ==> parse_array(o, acc_s, f2) == parse_array(
            o,
            acc_s,
            f1,
        ),
    decreases f1,
{
    if f1 > 0 {
        let fa = (f1 - 1) as nat;
        let fb = (f2 - 1) as nat;
        // Recursive calls made by parse_value(o, f1).
        if let Ok((t, rest)) = tok_read(o) {
            match t.data {
                crate::lex_spec::DataM::LeftBrace => {
                    lemma_parse_fuel_mono(rest, Map::empty(), Seq::empty(), fa, fb);
                },
                crate::lex_spec::DataM::LeftBracket => {
                    lemma_parse_fuel_mono(rest, Map::empty(), Seq::empty(), fa, fb);
                },
                _ => {},
            }
            // Recursive calls made by parse_object(o, acc_m, f1).
            if let crate::lex_spec::DataM::String(k) = t.data {
                if let Ok((t2, rest2)) = tok_read(rest) {
                    if t2.data is Colon {
                        lemma_parse_fuel_mono(rest2, Map::empty(), Seq::empty(), fa, fb);
                        if let PRes::Done { n, rest: rest3 } = parse_value(rest2, fa) {
                            if !(n is EOF) {
                                if let Ok((t4, rest4)) = tok_read(rest3) {
                                    if t4.data is Comma {
                                        lemma_parse_fuel_mono(
                                            rest4,
                                            acc_m.insert(k, n),
                                            Seq::empty(),
                                            fa,
                                            fb,
                                        );
                                    }
                                }
                            }
                        }
                    }
                }
            }
        }
        // Recursive calls made by parse_array(o, acc_s, f1).
        lemma_parse_fuel_mono(o, Map::empty(), Seq::empty(), fa, fb);
        if let PRes::Done { n, rest } = parse_value(o, fa) {
            if !(n is EOF) {
                if let Ok((t2, rest2)) = tok_read(rest) {
                    if t2.data is Comma {
                        lemma_parse_fuel_mono(rest2, Map::empty(), acc_s.push(n), fa, fb);
                    }
                }
            }
        }
    }
}

/// Whether the value recursion completes on some fuel.
pub open spec fn value_completes(o: LexOut) -> bool {
    exists|f: nat| !(parse_value(o, f) is OutOfFuel)
}

/// The parse of one value: the common answer of `parse_value` over every
/// fuel on which the recursion completes.
pub open spec fn parse_result(o: LexOut) -> PRes {
    if value_completes(o) {
        parse_value(o, choose|f: nat| !(parse_value(o, f) is OutOfFuel))
    } else {
        PRes::OutOfFuel
    }
}

pub proof fn lemma_parse_result_agrees(o: LexOut, f: nat)
    requires
        !(parse_value(o, f) is OutOfFuel),
    ensures
        parse_result(o) == parse_value(o, f),
{
    let g = choose|f: nat| !(parse_value(o, f) is OutOfFuel);
    if f <= g {
        lemma_parse_fuel_mono(o, Map::empty(), Seq::empty(), f, g);
    } else {
        lemma_parse_fuel_mono(o, Map::empty(), Seq::empty(), g, f);
    }
}

/// Whether the member recursion completes on some fuel.
pub open spec fn object_completes(o: LexOut, acc: Map<Seq<char>, NodeM>) -> bool {
    exists|f: nat| !(parse_object(o, acc, f) is OutOfFuel)
}

/// The parse of an object's members from `o` with the members of `acc`
/// already collected.
pub open spec fn object_result(o: LexOut, acc: Map<Seq<char>, NodeM>) -> PRes {
    if object_completes(o, acc) {
        parse_object(o, acc, choose|f: nat| !(parse_object(o, acc, f) is OutOfFuel))
    } else {
        PRes::OutOfFuel
    }
}

pub proof fn lemma_object_result_agrees(o: LexOut, acc: Map<Seq<char>, NodeM>, f: nat)
    requires
        !(parse_object(o, acc, f) is OutOfFuel),
    ensures
        object_result(o, acc) == parse_object(o, acc, f),
{
    let g = choose|f: nat| !(parse_object(o, acc, f) is OutOfFuel);
    if f <= g {
        lemma_parse_fuel_mono(o, acc, Seq::empty(), f, g);
    } else {
        lemma_parse_fuel_mono(o, acc, Seq::empty(), g, f);
    }
}

/// Whether the element recursion completes on some fuel.
pub open spec fn array_completes(o: LexOut, acc: Seq<NodeM>) -> bool {
    exists|f: nat| !(parse_array(o, acc, f) is OutOfFuel)
}

/// The parse of an array's elements from `o` with the elements of `acc`
/// already collected.
pub open spec fn array_result(o: LexOut, acc: Seq<NodeM>) -> PRes {
    if array_completes(o, acc) {
        parse_array(o, acc, choose|f: nat| !(parse_array(o, acc, f) is OutOfFuel))
    } else {
        PRes::OutOfFuel
    }
}

pub proof fn lemma_array_result_agrees(o: LexOut, acc: Seq<NodeM>, f: nat)
    requires
        !(parse_array(o, acc, f) is OutOfFuel),
    ensures
        array_result(o, acc) == parse_array(o, acc, f),
{
    let g = choose|f: nat| !(parse_array(o, acc, f) is OutOfFuel);
    if f <= g {
        lemma_parse_fuel_mono(o, Map::empty(), acc, f, g);
    } else {
        lemma_parse_fuel_mono(o, Map::empty(), acc, g, f);
    }
}

/// Once only whitespace and stray characters remain, a further parse
/// yields the end-of-input sentinel, not an error.
pub proof fn lemma_parse_after_exhaustion(s: Seq<char>, i: int)
    requires
        0 <= i <= s.len(),
        skip_to_token(s, i) == s.len(),
    ensures
        lex_all(s, i).toks.len() == 0,
        lex_all(s, i).err is None,
        parse_result(lex_all(s, i)) == (PRes::Done { n: NodeM::EOF, rest: lex_all(s, i) }),
{
    let o = lex_all(s, i);
    assert(parse_value(o, 1) == (PRes::Done { n: NodeM::EOF, rest: o }));
    lemma_parse_result_agrees(o, 1);
}

/// The data the tokens carry, with their positions left aside.
pub open spec fn data_of(o: LexOut) -> Seq<DataM> {
    data_seq(o.toks)
}

/// Two streams that carry the same token data and agree on whether they
/// end in a lexical error.
pub open spec fn same_data(a: LexOut, b: LexOut) -> bool {
    data_of(a) == data_of(b) && (a.err is Some <==> b.err is Some)
}

/// How two parses relate when their streams carry the same token data:
/// the same tree over same-data remainders, a syntax error with the same
/// expectation, a lexical error in both, or fuel out in both. Positions
/// are the only freedom.
pub open spec fn similar(p1: PRes, p2: PRes) -> bool {
    match (p1, p2) {
        (PRes::Done { n: n1, rest: r1 }, PRes::Done { n: n2, rest: r2 }) => n1 == n2
            && same_data(r1, r2),
        (
            PRes::Syntax { line: _, pos: _, msg: m1 },
            PRes::Syntax { line: _, pos: _, msg: m2 },
        ) => m1 == m2,
        (PRes::Lexical { e: _ }, PRes::Lexical { e: _ }) => true,
        (PRes::OutOfFuel, PRes::OutOfFuel) => true,
        _ => false,
    }
}

proof fn lemma_tok_read_same_data(a: LexOut, b: LexOut)
    requires
        same_data(a, b),
    ensures
        match (tok_read(a), tok_read(b)) {
            (Ok(p1), Ok(p2)) => p1.0.data == p2.0.data && same_data(p1.1, p2.1),
            (Err(_), Err(_)) => true,
            _ => false,
        },
{
    assert(data_of(a).len() == a.toks.len());
    assert(data_of(b).len() == b.toks.len());
    if a.toks.len() > 0 {
        assert(data_of(a)[0] == a.toks[0].data);
        assert(data_of(b)[0] == b.toks[0].data);
        let ra = tok_read(a)->Ok_0.1;
        let rb = tok_read(b)->Ok_0.1;
        assert(data_of(ra) =~= data_of(a).drop_first()) by {
            assert forall|i: int| 0 <= i < ra.toks.len() implies data_of(ra)[i] == data_of(
                a,
            ).drop_first()[i] by {
                assert(data_of(ra)[i] == ra.toks[i].data);
                assert(data_of(a)[i + 1] == a.toks[i + 1].data);
            }
        }
        assert(data_of(rb) =~= data_of(b).drop_first()) by {
            assert forall|i: int| 0 <= i < rb.toks.len() implies data_of(rb)[i] == data_of(
                b,
            ).drop_first()[i] by {
                assert(data_of(rb)[i] == rb.toks[i].data);
                assert(data_of(b)[i + 1] == b.toks[i + 1].data);
            }
        }
    }
}

/// Formatting between tokens never affects the resulting tree: a parse
/// depends only on the sequence of token data, never on the lines and
/// columns the tokens stand at. Whitespace and stray characters only move
/// positions, so two documents that lex to the same token data parse to
/// the same tree.
pub proof fn lemma_parse_depends_on_data(
    o1: LexOut,
    o2: LexOut,
    acc_m: Map<Seq<char>, NodeM>,
    acc_s: Seq<NodeM>,
    fuel: nat,
)
    requires
        same_data(o1, o2),
    ensures
        similar(parse_value(o1, fuel), parse_value(o2, fuel)),
        similar(parse_object(o1, acc_m, fuel), parse_object(o2, acc_m, fuel)),
        similar(parse_array(o1, acc_s, fuel), parse_array(o2, acc_s, fuel)),
    decreases fuel,
{
    if fuel > 0 {
        let fa = (fuel - 1) as nat;
        lemma_tok_read_same_data(o1, o2);
        if let (Ok((t1, r1)), Ok((t2, r2))) = (tok_read(o1), tok_read(o2)) {
            match t1.data {
                DataM::LeftBrace => {
                    lemma_parse_depends_on_data(r1, r2, Map::empty(), Seq::empty(), fa);
                },
                DataM::LeftBracket => {
                    lemma_parse_depends_on_data(r1, r2, Map::empty(), Seq::empty(), fa);
                },
                _ => {},
            }
            if let DataM::String(k) = t1.data {
                lemma_tok_read_same_data(r1, r2);
                if let (Ok((t21, r21)), Ok((t22, r22))) = (tok_read(r1), tok_read(r2)) {
                    if t21.data is Colon {
                        lemma_parse_depends_on_data(r21, r22, Map::empty(), Seq::empty(), fa);
                        if let (
                            PRes::Done { n: n1, rest: r31 },
                            PRes::Done { n: n2, rest: r32 },
                        ) = (parse_value(r21, fa), parse_value(r22, fa)) {
                            if !(n1 is EOF) {
                                lemma_tok_read_same_data(r31, r32);
                                if let (Ok((t41, r41)), Ok((t42, r42))) = (
                                    tok_read(r31),
                                    tok_read(r32),
                                ) {
                                    if t41.data is Comma {
                                        lemma_parse_depends_on_data(
                                            r41,
                                            r42,
                                            acc_m.insert(k, n1),
                                            Seq::empty(),
                                            fa,
                                        );
                                    }
                                }
                            }
                        }
                    }
                }
            }
        }
        lemma_parse_depends_on_data(o1, o2, Map::empty(), Seq::empty(), fa);
        if let (PRes::Done { n: n1, rest: r1 }, PRes::Done { n: n2, rest: r2 }) = (
            parse_value(o1, fa),
            parse_value(o2, fa),
        ) {
            if !(n1 is EOF) {
                lemma_tok_read_same_data(r1, r2);
                if let (Ok((t21, r21)), Ok((t22, r22))) = (tok_read(r1), tok_read(r2)) {
                    if t21.data is Comma {
                        lemma_parse_depends_on_data(
                            r21,
                            r22,
                            Map::empty(),
                            acc_s.push(n1),
                            fa,
                        );
                    }
                }
            }
        }
    }
}

/// The same, stated over the fuel-free results: two streams with the same
/// token data parse to the same tree, or fail with the same expectation.
pub proof fn lemma_parse_result_same_data(o1: LexOut, o2: LexOut)
    requires
        same_data(o1, o2),
    ensures
        similar(parse_result(o1), parse_result(o2)),
{
    if value_completes(o1) {
        let f = choose|f: nat| !(parse_value(o1, f) is OutOfFuel);
        lemma_parse_depends_on_data(o1, o2, Map::empty(), Seq::empty(), f);
        lemma_parse_result_agrees(o1, f);
        lemma_parse_result_agrees(o2, f);
    } else if value_completes(o2) {
        let f = choose|f: nat| !(parse_value(o2, f) is OutOfFuel);
        lemma_parse_depends_on_data(o1, o2, Map::empty(), Seq::empty(), f);
        lemma_parse_result_agrees(o2, f);
    }
}

/// Inserting a character on which no token begins — whitespace or any
/// other stray character — between tokens never affects the resulting
/// tree: with the insertion standing at the point the stream has consumed
/// to, both documents parse to the same tree, or fail with the same
/// expectation; only positions move.
pub proof fn lemma_stray_insertion_preserves_tree(u: Seq<char>, v: Seq<char>, c: char)
    requires
        !is_token_start(c),
    ensures
        similar(
            parse_result(lex_all(u + seq![c] + v, u.len() as int)),
            parse_result(lex_all(u + v, u.len() as int)),
        ),
{
    let s2 = u + seq![c] + v;
    assert(s2.len() == u.len() + 1 + v.len());
    assert(s2[u.len() as int] == c);
    lemma_stray_skipped(s2, u.len() as int);
    lemma_lex_all_suffix(u + seq![c], v, 0);
    lemma_lex_all_suffix(u, v, 0);
    assert(lex_all(s2, u.len() as int) == lex_all(s2, u.len() as int + 1));
    assert(same_data(lex_all(s2, u.len() as int), lex_all(u + v, u.len() as int)));
    lemma_parse_result_same_data(lex_all(s2, u.len() as int), lex_all(u + v, u.len() as int));
}

} // verus!
