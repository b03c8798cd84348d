//! The parser: tokens to types, with a span on every node. A syntax error is
//! reported and parsing resumes at the next `type`, so that one run reports
//! every block that fails.

use vstd::prelude::*;
use crate::lexer::{lexer, scan, token_views, LexError, Token, TokenView};
use crate::model::{
    access_views, lemma_children_view, relation_views, type_views, Access, AccessView, Identifier,
    IdentifierView, Relation, RelationView, Span, Type, TypeView,
};

verus! {

/// The kind of a token, without an identifier's text.
#[derive(Debug, Clone, Copy, PartialEq, Eq, Structural)]
pub enum TokenKind {
    Type,
    Relations,
    SelfRef,
    Define,
    And,
    Or,
    From,
    As,
    But,
    Not,
    OpenParenthesis,
    CloseParenthesis,
    Identifier,
}

pub open spec fn kind_of(t: TokenView) -> TokenKind {
    match t {
        TokenView::Type => TokenKind::Type,
        TokenView::Relations => TokenKind::Relations,
        TokenView::SelfRef => TokenKind::SelfRef,
        TokenView::Define => TokenKind::Define,
        TokenView::And => TokenKind::And,
        TokenView::Or => TokenKind::Or,
        TokenView::From => TokenKind::From,
        TokenView::As => TokenKind::As,
        TokenView::But => TokenKind::But,
        TokenView::Not => TokenKind::Not,
        TokenView::OpenParenthesis => TokenKind::OpenParenthesis,
        TokenView::CloseParenthesis => TokenKind::CloseParenthesis,
        TokenView::Identifier(_) => TokenKind::Identifier,
    }
}

pub type Toks = Seq<(TokenView, Span)>;

/// Where parsing failed (a token index, or the length at the end of input)
/// and which token kinds could have come there.
pub ghost struct Failure {
    pub pos: int,
    pub expected: Seq<TokenKind>,
    pub unclosed: Option<int>,
}

pub open spec fn fail<X>(pos: int, expected: Seq<TokenKind>) -> Result<(X, int), Failure> {
    Err(Failure { pos, expected, unclosed: None })
}

/// Token `p` exists and is of kind `k`.
pub open spec fn is_at(ts: Toks, p: int, k: TokenKind) -> bool {
    0 <= p < ts.len() && kind_of(ts[p].0) == k
}

/// The span from the start of token `p` to the end of token `q - 1`.
pub open spec fn join(ts: Toks, p: int, q: int) -> Span {
    Span { start: ts[p].1.start, end: ts[q - 1].1.end }
}

pub open spec fn ident_at(ts: Toks, p: int) -> IdentifierView {
    IdentifierView { name: ts[p].0->Identifier_0, span: Some(ts[p].1) }
}

pub open spec fn simple_expected() -> Seq<TokenKind> {
    seq![TokenKind::SelfRef, TokenKind::OpenParenthesis, TokenKind::Identifier]
}

/// `simple_access := 'self' | IDENT 'from' IDENT | IDENT | '(' or_access ')'`
pub open spec fn p_simple(ts: Toks, p: int) -> Result<(AccessView, int), Failure>
    decreases ts.len() - p, 0nat,
{
    if p < 0 || p >= ts.len() {
        fail(p, simple_expected())
    } else {
        match ts[p].0 {
            TokenView::SelfRef => Ok((AccessView::Direct { span: Some(ts[p].1) }, p + 1)),
            TokenView::OpenParenthesis => match p_or(ts, p + 1) {
                Ok((a, q)) => if is_at(ts, q, TokenKind::CloseParenthesis) {
                    Ok((a, q + 1))
                } else {
                    Err(Failure { pos: q, expected: seq![TokenKind::CloseParenthesis], unclosed: Some(p) })
                },
                Err(f) => Err(f),
            },
            TokenView::Identifier(_) => if is_at(ts, p + 1, TokenKind::From) {
                if is_at(ts, p + 2, TokenKind::Identifier) {
                    Ok((
                        AccessView::Computed {
                            object: ident_at(ts, p + 2),
                            relation: ident_at(ts, p),
                            span: Some(join(ts, p, p + 3)),
                        },
                        p + 3,
                    ))
                } else {
                    fail(p + 2, seq![TokenKind::Identifier])
                }
            } else {
                Ok((AccessView::SelfComputed { relation: ident_at(ts, p), span: Some(ts[p].1) }, p + 1))
            },
            _ => fail(p, simple_expected()),
        }
    }
}

/// `diff_access := simple_access ('but' 'not' simple_access)?`
pub open spec fn p_diff(ts: Toks, p: int) -> Result<(AccessView, int), Failure>
    decreases ts.len() - p, 1nat,
{
    match p_simple(ts, p) {
        Ok((a, q)) => if q <= p || q > ts.len() {
            fail(q, Seq::empty())
        } else if !is_at(ts, q, TokenKind::But) {
            Ok((a, q))
        } else if !is_at(ts, q + 1, TokenKind::Not) {
            fail(q + 1, seq![TokenKind::Not])
        } else {
            match p_simple(ts, q + 2) {
                Ok((b, r)) => Ok((
                    AccessView::Difference {
                        base: Box::new(a),
                        subtract: Box::new(b),
                        span: Some(join(ts, p, r)),
                    },
                    r,
                )),
                Err(f) => Err(f),
            }
        },
        Err(f) => Err(f),
    }
}

/// The rest of an `and` chain from token `q`, after the operands `acc`.
pub open spec fn p_and_rest(ts: Toks, q: int, acc: Seq<AccessView>) -> Result<(Seq<AccessView>, int), Failure>
    decreases ts.len() - q, 2nat,
{
    if !is_at(ts, q, TokenKind::And) {
        Ok((acc, q))
    } else {
        match p_diff(ts, q + 1) {
            Ok((a, r)) => if r <= q || r > ts.len() {
                fail(r, Seq::empty())
            } else {
                p_and_rest(ts, r, acc.push(a))
            },
            Err(f) => Err(f),
        }
    }
}

/// `and_access := diff_access ('and' diff_access)*`, one operand unwrapped.
pub open spec fn p_and(ts: Toks, p: int) -> Result<(AccessView, int), Failure>
    decreases ts.len() - p, 3nat,
{
    match p_diff(ts, p) {
        Ok((a, q)) => if q <= p || q > ts.len() {
            fail(q, Seq::empty())
        } else {
            match p_and_rest(ts, q, seq![a]) {
                Ok((cs, r)) => if cs.len() == 1 {
                    Ok((cs[0], r))
                } else {
                    Ok((AccessView::Intersection { children: cs, span: Some(join(ts, p, r)) }, r))
                },
                Err(f) => Err(f),
            }
        },
        Err(f) => Err(f),
    }
}

/// The rest of an `or` chain from token `q`, after the operands `acc`.
pub open spec fn p_or_rest(ts: Toks, q: int, acc: Seq<AccessView>) -> Result<(Seq<AccessView>, int), Failure>
    decreases ts.len() - q, 4nat,
{
    if !is_at(ts, q, TokenKind::Or) {
        Ok((acc, q))
    } else {
        match p_and(ts, q + 1) {
            Ok((a, r)) => if r <= q || r > ts.len() {
                fail(r, Seq::empty())
            } else {
                p_or_rest(ts, r, acc.push(a))
            },
            Err(f) => Err(f),
        }
    }
}

/// `or_access := and_access ('or' and_access)*`, one operand unwrapped.
pub open spec fn p_or(ts: Toks, p: int) -> Result<(AccessView, int), Failure>
    decreases ts.len() - p, 5nat,
{
    match p_and(ts, p) {
        Ok((a, q)) => if q <= p || q > ts.len() {
            fail(q, Seq::empty())
        } else {
            match p_or_rest(ts, q, seq![a]) {
                Ok((cs, r)) => if cs.len() == 1 {
                    Ok((cs[0], r))
                } else {
                    Ok((AccessView::Union { children: cs, span: Some(join(ts, p, r)) }, r))
                },
                Err(f) => Err(f),
            }
        },
        Err(f) => Err(f),
    }
}

pub proof fn lemma_simple_progress(ts: Toks, p: int)
    ensures
        p_simple(ts, p) matches Ok((_, q)) ==> p < q <= ts.len(),
    decreases ts.len() - p, 0nat,
{
    if 0 <= p < ts.len() && ts[p].0 is OpenParenthesis {
        lemma_or_progress(ts, p + 1);
    }
}

pub proof fn lemma_diff_progress(ts: Toks, p: int)
    ensures
        p_diff(ts, p) matches Ok((_, q)) ==> p < q <= ts.len(),
    decreases ts.len() - p, 1nat,
{
    lemma_simple_progress(ts, p);
    if let Ok((_, q)) = p_simple(ts, p) {
        if q > p && is_at(ts, q, TokenKind::But) && is_at(ts, q + 1, TokenKind::Not) {
            lemma_simple_progress(ts, q + 2);
        }
    }
}

pub proof fn lemma_and_rest_progress(ts: Toks, q: int, acc: Seq<AccessView>)
    ensures
        p_and_rest(ts, q, acc) matches Ok((cs, r)) ==> q <= r && (q <= ts.len() ==> r <= ts.len()) && cs.len() >= acc.len(),
    decreases ts.len() - q, 2nat,
{
    if is_at(ts, q, TokenKind::And) {
        lemma_diff_progress(ts, q + 1);
        if let Ok((a, r)) = p_diff(ts, q + 1) {
            if !(r <= q || r > ts.len()) {
                lemma_and_rest_progress(ts, r, acc.push(a));
            }
        }
    }
}

pub proof fn lemma_and_progress(ts: Toks, p: int)
    ensures
        p_and(ts, p) matches Ok((_, q)) ==> p < q <= ts.len(),
    decreases ts.len() - p, 3nat,
{
    lemma_diff_progress(ts, p);
    if let Ok((a, q)) = p_diff(ts, p) {
        lemma_and_rest_progress(ts, q, seq![a]);
    }
}

pub proof fn lemma_or_rest_progress(ts: Toks, q: int, acc: Seq<AccessView>)
    ensures
        p_or_rest(ts, q, acc) matches Ok((cs, r)) ==> q <= r && (q <= ts.len() ==> r <= ts.len()) && cs.len() >= acc.len(),
    decreases ts.len() - q, 4nat,
{
    if is_at(ts, q, TokenKind::Or) {
        lemma_and_progress(ts, q + 1);
        if let Ok((a, r)) = p_and(ts, q + 1) {
            if !(r <= q || r > ts.len()) {
                lemma_or_rest_progress(ts, r, acc.push(a));
            }
        }
    }
}

pub proof fn lemma_or_progress(ts: Toks, p: int)
    ensures
        p_or(ts, p) matches Ok((_, q)) ==> p < q <= ts.len(),
    decreases ts.len() - p, 5nat,
{
    lemma_and_progress(ts, p);
    if let Ok((a, q)) = p_and(ts, p) {
        lemma_or_rest_progress(ts, q, seq![a]);
    }
}

/// `relation := 'define' IDENT 'as' or_access`, where token `p` is `define`.
pub open spec fn p_relation(ts: Toks, p: int) -> Result<(RelationView, int), Failure> {
    if !is_at(ts, p + 1, TokenKind::Identifier) {
        fail(p + 1, seq![TokenKind::Identifier])
    } else if !is_at(ts, p + 2, TokenKind::As) {
        fail(p + 2, seq![TokenKind::As])
    } else {
        match p_or(ts, p + 3) {
            Ok((a, q)) => Ok((
                RelationView { identifier: ident_at(ts, p + 1), access: a, span: Some(join(ts, p, q)) },
                q,
            )),
            Err(f) => Err(f),
        }
    }
}

/// The relations from token `q` on, after those in `acc`.
pub open spec fn p_relations(ts: Toks, q: int, acc: Seq<RelationView>) -> Result<(Seq<RelationView>, int), Failure>
    decreases ts.len() - q,
{
    if !is_at(ts, q, TokenKind::Define) {
        Ok((acc, q))
    } else {
        match p_relation(ts, q) {
            Ok((r, q2)) => if q2 <= q || q2 > ts.len() {
                fail(q2, Seq::empty())
            } else {
                p_relations(ts, q2, acc.push(r))
            },
            Err(f) => Err(f),
        }
    }
}

/// `type := 'type' IDENT 'relations' relation*`, where token `p` is `type`.
pub open spec fn p_type(ts: Toks, p: int) -> Result<(TypeView, int), Failure> {
    if !is_at(ts, p + 1, TokenKind::Identifier) {
        fail(p + 1, seq![TokenKind::Identifier])
    } else if !is_at(ts, p + 2, TokenKind::Relations) {
        fail(p + 2, seq![TokenKind::Relations])
    } else {
        match p_relations(ts, p + 3, Seq::empty()) {
            Ok((rs, q)) => Ok((
                TypeView { identifier: ident_at(ts, p + 1), relations: rs, span: Some(join(ts, p, q)) },
                q,
            )),
            Err(f) => Err(f),
        }
    }
}

/// The first `type` token at or after `p`, or the end.
pub open spec fn next_type(ts: Toks, p: int) -> int
    decreases ts.len() - p,
{
    if p >= ts.len() {
        p
    } else if is_at(ts, p, TokenKind::Type) {
        p
    } else {
        next_type(ts, p + 1)
    }
}

pub proof fn lemma_next_type(ts: Toks, p: int)
    ensures
        p <= next_type(ts, p),
        p <= ts.len() ==> next_type(ts, p) <= ts.len(),
        forall|j: int| p <= j < next_type(ts, p) ==> !is_at(ts, j, TokenKind::Type),
    decreases ts.len() - p,
{
    if p < ts.len() && !is_at(ts, p, TokenKind::Type) {
        lemma_next_type(ts, p + 1);
    }
}

#[via_fn]
proof fn p_file_decreases(ts: Toks, p: int) {
    lemma_next_type(ts, p + 1);
}

/// `file := type*`: the types parsed from token `p` on and the failures met;
/// after a failure, parsing resumes at the next `type` token.
pub open spec fn p_file(ts: Toks, p: int) -> (Seq<TypeView>, Seq<Failure>)
    decreases ts.len() - p via p_file_decreases
{
    if p < 0 || p >= ts.len() {
        (Seq::empty(), Seq::empty())
    } else if is_at(ts, p, TokenKind::Type) {
        match p_type(ts, p) {
            Ok((t, q)) => if q <= p || q > ts.len() {
                (Seq::empty(), Seq::empty())
            } else {
                let rest = p_file(ts, q);
                (seq![t] + rest.0, rest.1)
            },
            Err(f) => {
                let rest = p_file(ts, next_type(ts, p + 1));
                (rest.0, seq![f] + rest.1)
            },
        }
    } else {
        let rest = p_file(ts, next_type(ts, p + 1));
        (rest.0, seq![Failure { pos: p, expected: seq![TokenKind::Type], unclosed: None }] + rest.1)
    }
}

pub proof fn lemma_relations_progress(ts: Toks, q: int, acc: Seq<RelationView>)
    ensures
        p_relations(ts, q, acc) matches Ok((_, r)) ==> q <= r && (q <= ts.len() ==> r <= ts.len()),
    decreases ts.len() - q,
{
    if is_at(ts, q, TokenKind::Define) {
        if let Ok((r, q2)) = p_relation(ts, q) {
            if !(q2 <= q || q2 > ts.len()) {
                lemma_relations_progress(ts, q2, acc.push(r));
            }
        }
    }
}

pub proof fn lemma_relation_progress(ts: Toks, p: int)
    ensures
        p_relation(ts, p) matches Ok((_, q)) ==> p + 3 < q <= ts.len(),
{
    lemma_or_progress(ts, p + 3);
}

pub proof fn lemma_type_progress(ts: Toks, p: int)
    ensures
        p_type(ts, p) matches Ok((_, q)) ==> p + 3 <= q <= ts.len(),
{
    if is_at(ts, p + 1, TokenKind::Identifier) && is_at(ts, p + 2, TokenKind::Relations) {
        lemma_relations_progress(ts, p + 3, Seq::empty());
    }
}

/// A failure found while parsing: the index of the token met, and what
/// could have come there.
struct Fail {
    pos: usize,
    expected: Vec<TokenKind>,
    unclosed: Option<usize>,
}

impl View for Fail {
    type V = Failure;

    closed spec fn view(&self) -> Failure {
        Failure {
            pos: self.pos as int,
            expected: self.expected@,
            unclosed: match self.unclosed {
                Some(u) => Some(u as int),
                None => None,
            },
        }
    }
}

fn failure(pos: usize, expected: Vec<TokenKind>) -> (r: Fail)
    ensures
        r@ == (Failure { pos: pos as int, expected: expected@, unclosed: None }),
{
    Fail { pos, expected, unclosed: None }
}

fn just(k: TokenKind) -> (r: Vec<TokenKind>)
    ensures
        r@ == seq![k],
{
    let mut v: Vec<TokenKind> = Vec::new();
    v.push(k);
    assert(v@ =~= seq![k]);
    v
}

fn simple_kinds() -> (r: Vec<TokenKind>)
    ensures
        r@ == simple_expected(),
{
    let mut v: Vec<TokenKind> = Vec::new();
    v.push(TokenKind::SelfRef);
    v.push(TokenKind::OpenParenthesis);
    v.push(TokenKind::Identifier);
    assert(v@ =~= simple_expected());
    v
}

fn token_kind(t: &Token) -> (r: TokenKind)
    ensures
        r == kind_of(t@),
{
    match t {
        Token::Type => TokenKind::Type,
        Token::Relations => TokenKind::Relations,
        Token::SelfRef => TokenKind::SelfRef,
        Token::Define => TokenKind::Define,
        Token::And => TokenKind::And,
        Token::Or => TokenKind::Or,
        Token::From => TokenKind::From,
        Token::As => TokenKind::As,
        Token::But => TokenKind::But,
        Token::Not => TokenKind::Not,
        Token::OpenParenthesis => TokenKind::OpenParenthesis,
        Token::CloseParenthesis => TokenKind::CloseParenthesis,
        Token::Identifier(_) => TokenKind::Identifier,
    }
}

fn at(tokens: &Vec<(Token, Span)>, p: usize, k: TokenKind) -> (r: bool)
    ensures
        r == is_at(token_views(tokens@), p as int, k),
{
    p < tokens.len() && token_kind(&tokens[p].0) == k
}

fn ident(tokens: &Vec<(Token, Span)>, p: usize) -> (r: Identifier)
    requires
        is_at(token_views(tokens@), p as int, TokenKind::Identifier),
    ensures
        r@ == ident_at(token_views(tokens@), p as int),
{
    match &tokens[p].0 {
        Token::Identifier(n) => Identifier { name: n.clone(), span: Some(tokens[p].1) },
        _ => Identifier { name: String::new(), span: None },
    }
}

fn join_exec(tokens: &Vec<(Token, Span)>, p: usize, q: usize) -> (r: Span)
    requires
        p < q <= tokens@.len(),
    ensures
        r == join(token_views(tokens@), p as int, q as int),
{
    Span { start: tokens[p].1.start, end: tokens[q - 1].1.end }
}

fn parse_simple(tokens: &Vec<(Token, Span)>, p: usize) -> (r: Result<(Access, usize), Fail>)
    requires
        p <= tokens@.len(),
    ensures
        match p_simple(token_views(tokens@), p as int) {
            Ok((a, q)) => r is Ok && r->Ok_0.0@ == a && r->Ok_0.1 == q,
            Err(f) => r is Err && r->Err_0@ == f,
        },
    decreases tokens@.len() - p, 0nat,
{
    let ghost ts = token_views(tokens@);
    let n = tokens.len();
    assert(ts.len() == n);
    if p >= tokens.len() {
        return Err(failure(p, simple_kinds()));
    }
    assert(ts[p as int].0 == tokens@[p as int].0@);
    match &tokens[p].0 {
        Token::SelfRef => {
            assert(ts[p as int].0 is SelfRef);
            Ok((Access::Direct { span: Some(tokens[p].1) }, p + 1))
        },
        Token::OpenParenthesis => {
            assert(ts[p as int].0 is OpenParenthesis);
            proof {
                lemma_or_progress(ts, p + 1);
            }
            match parse_or(tokens, p + 1) {
                Ok((a, q)) => {
                    if at(tokens, q, TokenKind::CloseParenthesis) {
                        Ok((a, q + 1))
                    } else {
                        Err(Fail { pos: q, expected: just(TokenKind::CloseParenthesis), unclosed: Some(p) })
                    }
                },
                Err(f) => Err(f),
            }
        },
        Token::Identifier(_) => {
            assert(ts[p as int].0 is Identifier);
            if at(tokens, p + 1, TokenKind::From) {
                if at(tokens, p + 2, TokenKind::Identifier) {
                    Ok((
                        Access::Computed {
                            object: ident(tokens, p + 2),
                            relation: ident(tokens, p),
                            span: Some(join_exec(tokens, p, p + 3)),
                        },
                        p + 3,
                    ))
                } else {
                    Err(failure(p + 2, just(TokenKind::Identifier)))
                }
            } else {
                Ok((Access::SelfComputed { relation: ident(tokens, p), span: Some(tokens[p].1) }, p + 1))
            }
        },
        _ => Err(failure(p, simple_kinds())),
    }
}

fn parse_diff(tokens: &Vec<(Token, Span)>, p: usize) -> (r: Result<(Access, usize), Fail>)
    requires
        p <= tokens@.len(),
    ensures
        match p_diff(token_views(tokens@), p as int) {
            Ok((a, q)) => r is Ok && r->Ok_0.0@ == a && r->Ok_0.1 == q,
            Err(f) => r is Err && r->Err_0@ == f,
        },
    decreases tokens@.len() - p, 1nat,
{
    let ghost ts = token_views(tokens@);
    let n = tokens.len();
    assert(ts.len() == n);
    proof {
        lemma_simple_progress(ts, p as int);
    }
    match parse_simple(tokens, p) {
        Ok((a, q)) => {
            if !at(tokens, q, TokenKind::But) {
                Ok((a, q))
            } else if !at(tokens, q + 1, TokenKind::Not) {
                Err(failure(q + 1, just(TokenKind::Not)))
            } else {
                proof {
                    lemma_simple_progress(ts, q + 2);
                }
                match parse_simple(tokens, q + 2) {
                    Ok((b, r)) => Ok((
                        Access::Difference {
                            base: Box::new(a),
                            subtract: Box::new(b),
                            span: Some(join_exec(tokens, p, r)),
                        },
                        r,
                    )),
                    Err(f) => Err(f),
                }
            }
        },
        Err(f) => Err(f),
    }
}

fn parse_and_rest(tokens: &Vec<(Token, Span)>, q: usize, acc: Vec<Access>) -> (r: Result<(Vec<Access>, usize), Fail>)
    requires
        q <= tokens@.len(),
    ensures
        match p_and_rest(token_views(tokens@), q as int, access_views(acc@)) {
            Ok((cs, e)) => r is Ok && access_views(r->Ok_0.0@) == cs && r->Ok_0.1 == e,
            Err(f) => r is Err && r->Err_0@ == f,
        },
    decreases tokens@.len() - q, 2nat,
{
    let ghost ts = token_views(tokens@);
    let n = tokens.len();
    assert(ts.len() == n);
    if !at(tokens, q, TokenKind::And) {
        return Ok((acc, q));
    }
    proof {
        lemma_diff_progress(ts, q + 1);
    }
    match parse_diff(tokens, q + 1) {
        Ok((a, r)) => {
            let mut acc = acc;
            let ghost before = acc@;
            acc.push(a);
            assert(access_views(acc@) =~= access_views(before).push(a@));
            parse_and_rest(tokens, r, acc)
        },
        Err(f) => Err(f),
    }
}

fn parse_and(tokens: &Vec<(Token, Span)>, p: usize) -> (r: Result<(Access, usize), Fail>)
    requires
        p <= tokens@.len(),
    ensures
        match p_and(token_views(tokens@), p as int) {
            Ok((a, q)) => r is Ok && r->Ok_0.0@ == a && r->Ok_0.1 == q,
            Err(f) => r is Err && r->Err_0@ == f,
        },
    decreases tokens@.len() - p, 3nat,
{
    let ghost ts = token_views(tokens@);
    let n = tokens.len();
    assert(ts.len() == n);
    proof {
        lemma_diff_progress(ts, p as int);
    }
    match parse_diff(tokens, p) {
        Ok((a, q)) => {
            let ghost av = a@;
            proof {
                lemma_and_rest_progress(ts, q as int, seq![av]);
            }
            let acc = vec![a];
            assert(access_views(acc@) =~= seq![av]);
            match parse_and_rest(tokens, q, acc) {
                Ok((cs, r)) => {
                    if cs.len() == 1 {
                        let mut cs = cs;
                        let ghost cv = access_views(cs@);
                        let last = cs.pop();
                        match last {
                            Some(x) => {
                                assert(x@ == cv[0]);
                                Ok((x, r))
                            },
                            None => Err(failure(r, Vec::new())),
                        }
                    } else {
                        let ghost cv = access_views(cs@);
                        let node = Access::Intersection { children: cs, span: Some(join_exec(tokens, p, r)) };
                        proof {
                            lemma_children_view(&node);
                        }
                        Ok((node, r))
                    }
                },
                Err(f) => Err(f),
            }
        },
        Err(f) => Err(f),
    }
}

fn parse_or_rest(tokens: &Vec<(Token, Span)>, q: usize, acc: Vec<Access>) -> (r: Result<(Vec<Access>, usize), Fail>)
    requires
        q <= tokens@.len(),
    ensures
        match p_or_rest(token_views(tokens@), q as int, access_views(acc@)) {
            Ok((cs, e)) => r is Ok && access_views(r->Ok_0.0@) == cs && r->Ok_0.1 == e,
            Err(f) => r is Err && r->Err_0@ == f,
        },
    decreases tokens@.len() - q, 4nat,
{
    let ghost ts = token_views(tokens@);
    let n = tokens.len();
    assert(ts.len() == n);
    if !at(tokens, q, TokenKind::Or) {
        return Ok((acc, q));
    }
    proof {
        lemma_and_progress(ts, q + 1);
    }
    match parse_and(tokens, q + 1) {
        Ok((a, r)) => {
            let mut acc = acc;
            let ghost before = acc@;
            acc.push(a);
            assert(access_views(acc@) =~= access_views(before).push(a@));
            parse_or_rest(tokens, r, acc)
        },
        Err(f) => Err(f),
    }
}

fn parse_or(tokens: &Vec<(Token, Span)>, p: usize) -> (r: Result<(Access, usize), Fail>)
    requires
        p <= tokens@.len(),
    ensures
        match p_or(token_views(tokens@), p as int) {
            Ok((a, q)) => r is Ok && r->Ok_0.0@ == a && r->Ok_0.1 == q,
            Err(f) => r is Err && r->Err_0@ == f,
        },
    decreases tokens@.len() - p, 5nat,
{
    let ghost ts = token_views(tokens@);
    let n = tokens.len();
    assert(ts.len() == n);
    proof {
        lemma_and_progress(ts, p as int);
    }
    match parse_and(tokens, p) {
        Ok((a, q)) => {
            let ghost av = a@;
            proof {
                lemma_or_rest_progress(ts, q as int, seq![av]);
            }
            let acc = vec![a];
            assert(access_views(acc@) =~= seq![av]);
            match parse_or_rest(tokens, q, acc) {
                Ok((cs, r)) => {
                    if cs.len() == 1 {
                        let mut cs = cs;
                        let ghost cv = access_views(cs@);
                        let last = cs.pop();
                        match last {
                            Some(x) => {
                                assert(x@ == cv[0]);
                                Ok((x, r))
                            },
                            None => Err(failure(r, Vec::new())),
                        }
                    } else {
                        let node = Access::Union { children: cs, span: Some(join_exec(tokens, p, r)) };
                        proof {
                            lemma_children_view(&node);
                        }
                        Ok((node, r))
                    }
                },
                Err(f) => Err(f),
            }
        },
        Err(f) => Err(f),
    }
}

fn parse_relation(tokens: &Vec<(Token, Span)>, p: usize) -> (r: Result<(Relation, usize), Fail>)
    requires
        is_at(token_views(tokens@), p as int, TokenKind::Define),
    ensures
        match p_relation(token_views(tokens@), p as int) {
            Ok((x, q)) => r is Ok && r->Ok_0.0@ == x && r->Ok_0.1 == q,
            Err(f) => r is Err && r->Err_0@ == f,
        },
{
    let ghost ts = token_views(tokens@);
    let n = tokens.len();
    assert(ts.len() == n);
    if !at(tokens, p + 1, TokenKind::Identifier) {
        return Err(failure(p + 1, just(TokenKind::Identifier)));
    }
    if !at(tokens, p + 2, TokenKind::As) {
        return Err(failure(p + 2, just(TokenKind::As)));
    }
    proof {
        lemma_or_progress(ts, p + 3);
    }
    match parse_or(tokens, p + 3) {
        Ok((a, q)) => Ok((
            Relation { identifier: ident(tokens, p + 1), access: a, span: Some(join_exec(tokens, p, q)) },
            q,
        )),
        Err(f) => Err(f),
    }
}

fn parse_relations(tokens: &Vec<(Token, Span)>, q: usize, acc: Vec<Relation>) -> (r: Result<(Vec<Relation>, usize), Fail>)
    requires
        q <= tokens@.len(),
    ensures
        match p_relations(token_views(tokens@), q as int, relation_views(acc@)) {
            Ok((rs, e)) => r is Ok && relation_views(r->Ok_0.0@) == rs && r->Ok_0.1 == e,
            Err(f) => r is Err && r->Err_0@ == f,
        },
    decreases tokens@.len() - q,
{
    let ghost ts = token_views(tokens@);
    if !at(tokens, q, TokenKind::Define) {
        return Ok((acc, q));
    }
    proof {
        lemma_relation_progress(ts, q as int);
    }
    match parse_relation(tokens, q) {
        Ok((x, q2)) => {
            let mut acc = acc;
            let ghost before = acc@;
            acc.push(x);
            assert(relation_views(acc@) =~= relation_views(before).push(x@));
            parse_relations(tokens, q2, acc)
        },
        Err(f) => Err(f),
    }
}

fn parse_type(tokens: &Vec<(Token, Span)>, p: usize) -> (r: Result<(Type, usize), Fail>)
    requires
        is_at(token_views(tokens@), p as int, TokenKind::Type),
    ensures
        match p_type(token_views(tokens@), p as int) {
            Ok((x, q)) => r is Ok && r->Ok_0.0@ == x && r->Ok_0.1 == q,
            Err(f) => r is Err && r->Err_0@ == f,
        },
{
    let ghost ts = token_views(tokens@);
    let n = tokens.len();
    assert(ts.len() == n);
    if !at(tokens, p + 1, TokenKind::Identifier) {
        return Err(failure(p + 1, just(TokenKind::Identifier)));
    }
    if !at(tokens, p + 2, TokenKind::Relations) {
        return Err(failure(p + 2, just(TokenKind::Relations)));
    }
    proof {
        lemma_relations_progress(ts, p + 3, Seq::empty());
    }
    let acc: Vec<Relation> = Vec::new();
    assert(relation_views(acc@) =~= Seq::<RelationView>::empty());
    match parse_relations(tokens, p + 3, acc) {
        Ok((rs, q)) => Ok((
            Type { identifier: ident(tokens, p + 1), relations: rs, span: Some(join_exec(tokens, p, q)) },
            q,
        )),
        Err(f) => Err(f),
    }
}

/// A syntax error: the span of the token met (or of the end of input), that
/// token, and the token kinds that could have come there.
#[derive(Debug, PartialEq, Eq)]
pub struct ParseError {
    pub span: Span,
    pub found: Option<Token>,
    pub expected: Vec<TokenKind>,
    pub unclosed: Option<Span>,
}

pub ghost struct ParseErrorView {
    pub span: Span,
    pub found: Option<TokenView>,
    pub expected: Seq<TokenKind>,
    pub unclosed: Option<Span>,
}

impl View for ParseError {
    type V = ParseErrorView;

    open spec fn view(&self) -> ParseErrorView {
        ParseErrorView {
            span: self.span,
            found: match self.found {
                Some(t) => Some(t@),
                None => None,
            },
            expected: self.expected@,
            unclosed: self.unclosed,
        }
    }
}

/// The error that reports failure `f`; `eoi` is the span of the end of input.
pub open spec fn error_of(ts: Toks, eoi: Span, f: Failure) -> ParseErrorView {
    let unclosed = match f.unclosed {
        Some(u) => if 0 <= u < ts.len() {
            Some(ts[u].1)
        } else {
            None
        },
        None => None,
    };
    if 0 <= f.pos < ts.len() {
        ParseErrorView { span: ts[f.pos].1, found: Some(ts[f.pos].0), expected: f.expected, unclosed }
    } else {
        ParseErrorView { span: eoi, found: None, expected: f.expected, unclosed }
    }
}

pub open spec fn errors_of(ts: Toks, eoi: Span, fs: Seq<Failure>) -> Seq<ParseErrorView> {
    Seq::new(fs.len(), |i: int| error_of(ts, eoi, fs[i]))
}

pub open spec fn parse_error_views(es: Seq<ParseError>) -> Seq<ParseErrorView> {
    Seq::new(es.len(), |i: int| es[i]@)
}

fn report(tokens: &Vec<(Token, Span)>, eoi: Span, f: Fail) -> (r: ParseError)
    ensures
        r@ == error_of(token_views(tokens@), eoi, f@),
{
    let ghost ts = token_views(tokens@);
    let unclosed = match f.unclosed {
        Some(u) => if u < tokens.len() {
            Some(tokens[u].1)
        } else {
            None
        },
        None => None,
    };
    if f.pos < tokens.len() {
        assert(ts[f.pos as int] == (tokens@[f.pos as int].0@, tokens@[f.pos as int].1));
        ParseError { span: tokens[f.pos].1, found: Some(tokens[f.pos].0.clone()), expected: f.expected, unclosed }
    } else {
        ParseError { span: eoi, found: None, expected: f.expected, unclosed }
    }
}

fn next_type_exec(tokens: &Vec<(Token, Span)>, p: usize) -> (r: usize)
    requires
        p <= tokens@.len(),
    ensures
        r == next_type(token_views(tokens@), p as int),
{
    let ghost ts = token_views(tokens@);
    let mut i = p;
    while i < tokens.len() && !at(tokens, i, TokenKind::Type)
        invariant
            ts == token_views(tokens@),
            p <= i <= tokens@.len(),
            next_type(ts, p as int) == next_type(ts, i as int),
        decreases tokens@.len() - i,
    {
        i = i + 1;
    }
    i
}

/// Parses the whole token list: the types read, and an error for each block
/// that failed; after an error, parsing resumes at the next `type` token.
/// `eoi` is the span reported for an error at the end of input.
pub fn better_parser(tokens: &Vec<(Token, Span)>, eoi: Span) -> (r: (Vec<Type>, Vec<ParseError>))
    ensures
        type_views(r.0@) == p_file(token_views(tokens@), 0).0,
        parse_error_views(r.1@) == errors_of(token_views(tokens@), eoi, p_file(token_views(tokens@), 0).1),
{
    let ghost ts = token_views(tokens@);
    let ghost all = p_file(ts, 0);
    let n = tokens.len();
    let mut types: Vec<Type> = Vec::new();
    let mut errors: Vec<ParseError> = Vec::new();
    let mut i: usize = 0;
    assert(type_views(types@) + p_file(ts, 0).0 =~= all.0);
    assert(parse_error_views(errors@) + errors_of(ts, eoi, p_file(ts, 0).1) =~= errors_of(ts, eoi, all.1));
    while i < n
        invariant
            ts == token_views(tokens@),
            n == tokens@.len(),
            all == p_file(ts, 0),
            i <= n,
            type_views(types@) + p_file(ts, i as int).0 == all.0,
            parse_error_views(errors@) + errors_of(ts, eoi, p_file(ts, i as int).1) == errors_of(ts, eoi, all.1),
        decreases n - i,
    {
        let ghost here = p_file(ts, i as int);
        let ghost tv = type_views(types@);
        let ghost ev = parse_error_views(errors@);
        proof {
            lemma_next_type(ts, i + 1);
        }
        if at(tokens, i, TokenKind::Type) {
            proof {
                lemma_type_progress(ts, i as int);
            }
            match parse_type(tokens, i) {
                Ok((t, q)) => {
                    types.push(t);
                    proof {
                        assert(type_views(types@) =~= tv.push(t@));
                        assert(here.0 =~= seq![t@] + p_file(ts, q as int).0);
                        assert(type_views(types@) + p_file(ts, q as int).0 =~= tv + here.0);
                        assert(errors_of(ts, eoi, p_file(ts, q as int).1) =~= errors_of(ts, eoi, here.1));
                    }
                    i = q;
                },
                Err(f) => {
                    let ghost fv = f@;
                    let e = report(tokens, eoi, f);
                    errors.push(e);
                    let j = next_type_exec(tokens, i + 1);
                    proof {
                        assert(parse_error_views(errors@) =~= ev.push(e@));
                        assert(errors_of(ts, eoi, here.1) =~= seq![e@] + errors_of(ts, eoi, p_file(ts, j as int).1));
                        assert(parse_error_views(errors@) + errors_of(ts, eoi, p_file(ts, j as int).1) =~= ev + errors_of(ts, eoi, here.1));
                    }
                    i = j;
                },
            }
        } else {
            let e = report(tokens, eoi, failure(i, just(TokenKind::Type)));
            errors.push(e);
            let j = next_type_exec(tokens, i + 1);
            proof {
                assert(parse_error_views(errors@) =~= ev.push(e@));
                assert(errors_of(ts, eoi, here.1) =~= seq![e@] + errors_of(ts, eoi, p_file(ts, j as int).1));
                assert(parse_error_views(errors@) + errors_of(ts, eoi, p_file(ts, j as int).1) =~= ev + errors_of(ts, eoi, here.1));
            }
            i = j;
        }
    }
    proof {
        assert(type_views(types@) =~= all.0);
        assert(parse_error_views(errors@) =~= errors_of(ts, eoi, all.1));
    }
    (types, errors)
}

/// Why a source did not parse: the characters the lexer did not recognise,
/// or else the syntax errors.
#[derive(Debug, PartialEq, Eq)]
pub enum ParseErrors {
    Lexer(Vec<LexError>),
    Parser(Vec<ParseError>),
}

/// The span of the end of `src`.
pub open spec fn end_span(src: Seq<char>) -> Span {
    Span {
        start: vstd::utf8::encode_utf8(src).len() as usize,
        end: vstd::utf8::encode_utf8(src).len() as usize,
    }
}

/// The tokens of `src`, as the parser reads them.
pub open spec fn source_tokens(src: Seq<char>) -> Toks {
    scan(src, 0).0
}

/// Lexes and parses `src`. It succeeds exactly when the lexer meets no
/// unrecognised character and the parser no syntax error; the types are
/// then those of the grammar, with their spans.
pub fn parse_model(src: &str) -> (r: Result<Vec<Type>, ParseErrors>)
    ensures
        scan(src@, 0).1.len() > 0 ==> (r matches Err(ParseErrors::Lexer(es)) && es@ == scan(src@, 0).1),
        scan(src@, 0).1.len() == 0 && p_file(source_tokens(src@), 0).1.len() > 0 ==> (r matches Err(
            ParseErrors::Parser(es),
        ) && parse_error_views(es@) == errors_of(source_tokens(src@), end_span(src@), p_file(source_tokens(src@), 0).1)),
        scan(src@, 0).1.len() == 0 && p_file(source_tokens(src@), 0).1.len() == 0 ==> (r matches Ok(ts)
            && type_views(ts@) == p_file(source_tokens(src@), 0).0),
{
    let (tokens, lex_errors) = lexer(src);
    if lex_errors.len() > 0 {
        return Err(ParseErrors::Lexer(lex_errors));
    }
    let end = src.as_bytes().len();
    let eoi = Span { start: end, end: end };
    let (types, errors) = better_parser(&tokens, eoi);
    assert(token_views(tokens@) == source_tokens(src@));
    assert(parse_error_views(errors@).len() == errors@.len());
    assert(eoi == end_span(src@));
    if errors.len() > 0 {
        return Err(ParseErrors::Parser(errors));
    }
    Ok(types)
}

/// `inner` is present, well formed, and lies within `outer`.
pub open spec fn inside(inner: Option<Span>, outer: Span) -> bool {
    inner matches Some(s) && outer.start <= s.start && s.start <= s.end && s.end <= outer.end
}

/// Every node of `a` has a span, and each child's span, identifiers'
/// included, lies within its parent's.
pub open spec fn access_spanned(a: AccessView) -> bool
    decreases a,
{
    match a.span() {
        None => false,
        Some(sp) => sp.start <= sp.end && match a {
            AccessView::Direct { .. } => true,
            AccessView::SelfComputed { relation, .. } => inside(relation.span, sp),
            AccessView::Computed { object, relation, .. } => inside(object.span, sp) && inside(relation.span, sp),
            AccessView::Union { children, .. } => forall|i: int|
                0 <= i < children.len() ==> inside(children[i].span(), sp) && access_spanned(#[trigger] children[i]),
            AccessView::Intersection { children, .. } => forall|i: int|
                0 <= i < children.len() ==> inside(children[i].span(), sp) && access_spanned(#[trigger] children[i]),
            AccessView::Difference { base, subtract, .. } => inside(base.span(), sp) && inside(subtract.span(), sp)
                && access_spanned(*base) && access_spanned(*subtract),
        },
    }
}

/// The span of `a` ends no later than that of `b` starts.
pub open spec fn precedes(a: Option<Span>, b: Option<Span>) -> bool {
    a matches Some(x) && b matches Some(y) && x.end <= y.start
}

/// Operands of every node of `a` come in source order.
pub open spec fn access_ordered(a: AccessView) -> bool
    decreases a,
{
    match a {
        AccessView::Union { children, .. } => (forall|i: int|
            0 <= i < children.len() - 1 ==> precedes(#[trigger] children[i].span(), children[i + 1].span()))
            && forall|i: int| 0 <= i < children.len() ==> access_ordered(#[trigger] children[i]),
        AccessView::Intersection { children, .. } => (forall|i: int|
            0 <= i < children.len() - 1 ==> precedes(#[trigger] children[i].span(), children[i + 1].span()))
            && forall|i: int| 0 <= i < children.len() ==> access_ordered(#[trigger] children[i]),
        AccessView::Difference { base, subtract, .. } => precedes(base.span(), subtract.span())
            && access_ordered(*base) && access_ordered(*subtract),
        _ => true,
    }
}

pub open spec fn relation_spanned(r: RelationView) -> bool {
    r.span matches Some(sp) && sp.start <= sp.end && inside(r.identifier.span, sp) && inside(r.access.span(), sp)
        && access_spanned(r.access) && access_ordered(r.access)
}

pub open spec fn type_spanned(t: TypeView) -> bool {
    &&& t.span matches Some(sp) && sp.start <= sp.end && inside(t.identifier.span, sp) && forall|k: int|
        0 <= k < t.relations.len() ==> inside(t.relations[k].span, sp) && relation_spanned(#[trigger] t.relations[k])
    &&& forall|k: int| 0 <= k < t.relations.len() ==> precedes(t.identifier.span, #[trigger] t.relations[k].span)
    &&& forall|k: int| 0 <= k < t.relations.len() - 1 ==> precedes(#[trigger] t.relations[k].span, t.relations[k + 1].span)
}

/// Token spans are well formed and in source order.
pub open spec fn tokens_ordered(ts: Toks) -> bool {
    &&& forall|i: int| 0 <= i < ts.len() ==> (#[trigger] ts[i]).1.start <= ts[i].1.end
    &&& forall|i: int, j: int| 0 <= i < j < ts.len() ==> (#[trigger] ts[i]).1.end <= (#[trigger] ts[j]).1.start
}

proof fn lemma_widen(ts: Toks, x: Option<Span>, p: int, q: int, a: int, b: int)
    requires
        tokens_ordered(ts),
        0 <= a <= p < q <= b <= ts.len(),
        inside(x, join(ts, p, q)),
    ensures
        inside(x, join(ts, a, b)),
{
    assert(ts[a].1.start <= ts[p].1.start) by {
        if a < p {
            assert(ts[a].1.end <= ts[p].1.start);
        }
    };
    assert(ts[q - 1].1.end <= ts[b - 1].1.end) by {
        if q - 1 < b - 1 {
            assert(ts[q - 1].1.end <= ts[b - 1].1.start);
        }
    };
}

proof fn lemma_simple_spanned(ts: Toks, p: int)
    requires
        tokens_ordered(ts),
    ensures
        p_simple(ts, p) matches Ok((a, q)) ==> access_spanned(a) && access_ordered(a) && inside(a.span(), join(ts, p, q)),
    decreases ts.len() - p, 0nat,
{
    lemma_simple_progress(ts, p);
    if 0 <= p < ts.len() {
        match ts[p].0 {
            TokenView::OpenParenthesis => {
                lemma_or_spanned(ts, p + 1);
                lemma_or_progress(ts, p + 1);
                if let Ok((a, q)) = p_or(ts, p + 1) {
                    if is_at(ts, q, TokenKind::CloseParenthesis) {
                        lemma_widen(ts, a.span(), p + 1, q, p, q + 1);
                    }
                }
            },
            TokenView::Identifier(_) => {
                if is_at(ts, p + 1, TokenKind::From) && is_at(ts, p + 2, TokenKind::Identifier) {
                    assert(ts[p].1.end <= ts[p + 2].1.start);
                }
            },
            _ => {},
        }
    }
}

proof fn lemma_diff_spanned(ts: Toks, p: int)
    requires
        tokens_ordered(ts),
    ensures
        p_diff(ts, p) matches Ok((a, q)) ==> access_spanned(a) && access_ordered(a) && inside(a.span(), join(ts, p, q)),
    decreases ts.len() - p, 1nat,
{
    lemma_simple_spanned(ts, p);
    lemma_simple_progress(ts, p);
    if let Ok((a, q)) = p_simple(ts, p) {
        if q > p && is_at(ts, q, TokenKind::But) && is_at(ts, q + 1, TokenKind::Not) {
            lemma_simple_spanned(ts, q + 2);
            lemma_simple_progress(ts, q + 2);
            if let Ok((b, r)) = p_simple(ts, q + 2) {
                lemma_widen(ts, a.span(), p, q, p, r);
                lemma_widen(ts, b.span(), q + 2, r, p, r);
                assert(ts[q - 1].1.end <= ts[q + 2].1.start);
                assert(ts[p].1.start <= ts[p].1.end);
                assert(ts[p].1.end <= ts[r - 1].1.end) by {
                    if p < r - 1 {
                        assert(ts[p].1.end <= ts[r - 1].1.start);
                    }
                };
            }
        }
    }
}

/// All of `cs` are spanned, ordered, in source order, and lie within tokens `[p, q)`.
pub open spec fn all_within(ts: Toks, cs: Seq<AccessView>, p: int, q: int) -> bool {
    &&& forall|k: int| 0 <= k < cs.len() ==> access_spanned(#[trigger] cs[k]) && access_ordered(cs[k]) && inside(cs[k].span(), join(ts, p, q))
    &&& forall|k: int| 0 <= k < cs.len() - 1 ==> precedes(#[trigger] cs[k].span(), cs[k + 1].span())
}

proof fn lemma_and_rest_spanned(ts: Toks, p: int, q: int, acc: Seq<AccessView>)
    requires
        tokens_ordered(ts),
        0 <= p < q <= ts.len(),
        all_within(ts, acc, p, q),
    ensures
        p_and_rest(ts, q, acc) matches Ok((cs, r)) ==> all_within(ts, cs, p, r),
    decreases ts.len() - q, 2nat,
{
    if is_at(ts, q, TokenKind::And) {
        lemma_diff_spanned(ts, q + 1);
        lemma_diff_progress(ts, q + 1);
        if let Ok((a, r)) = p_diff(ts, q + 1) {
            let acc2 = acc.push(a);
            assert forall|k: int| 0 <= k < acc2.len() implies access_spanned(#[trigger] acc2[k]) && access_ordered(acc2[k]) && inside(acc2[k].span(), join(ts, p, r)) by {
                if k < acc.len() {
                    assert(acc2[k] == acc[k]);
                    lemma_widen(ts, acc[k].span(), p, q, p, r);
                } else {
                    lemma_widen(ts, a.span(), q + 1, r, p, r);
                }
            };
            assert forall|k: int| 0 <= k < acc2.len() - 1 implies precedes(#[trigger] acc2[k].span(), acc2[k + 1].span()) by {
                if k < acc.len() - 1 {
                    assert(acc2[k] == acc[k] && acc2[k + 1] == acc[k + 1]);
                } else {
                    assert(acc2[k] == acc[k]);
                    assert(ts[q - 1].1.end <= ts[q + 1].1.start);
                }
            };
            lemma_and_rest_spanned(ts, p, r, acc2);
        }
    }
}

proof fn lemma_and_spanned(ts: Toks, p: int)
    requires
        tokens_ordered(ts),
    ensures
        p_and(ts, p) matches Ok((a, q)) ==> access_spanned(a) && access_ordered(a) && inside(a.span(), join(ts, p, q)),
    decreases ts.len() - p, 3nat,
{
    lemma_diff_spanned(ts, p);
    lemma_diff_progress(ts, p);
    if let Ok((a, q)) = p_diff(ts, p) {
        assert(all_within(ts, seq![a], p, q));
        lemma_and_rest_spanned(ts, p, q, seq![a]);
        lemma_and_rest_progress(ts, q, seq![a]);
        if let Ok((cs, r)) = p_and_rest(ts, q, seq![a]) {
            assert(cs.len() >= 1);
            assert(access_spanned(cs[0]) && access_ordered(cs[0]));
            assert(ts[p].1.start <= ts[p].1.end);
            assert(ts[p].1.end <= ts[r - 1].1.end) by {
                if p < r - 1 {
                    assert(ts[p].1.end <= ts[r - 1].1.start);
                }
            };
        }
    }
}

proof fn lemma_or_rest_spanned(ts: Toks, p: int, q: int, acc: Seq<AccessView>)
    requires
        tokens_ordered(ts),
        0 <= p < q <= ts.len(),
        all_within(ts, acc, p, q),
    ensures
        p_or_rest(ts, q, acc) matches Ok((cs, r)) ==> all_within(ts, cs, p, r),
    decreases ts.len() - q, 4nat,
{
    if is_at(ts, q, TokenKind::Or) {
        lemma_and_spanned(ts, q + 1);
        lemma_and_progress(ts, q + 1);
        if let Ok((a, r)) = p_and(ts, q + 1) {
            let acc2 = acc.push(a);
            assert forall|k: int| 0 <= k < acc2.len() implies access_spanned(#[trigger] acc2[k]) && access_ordered(acc2[k]) && inside(acc2[k].span(), join(ts, p, r)) by {
                if k < acc.len() {
                    assert(acc2[k] == acc[k]);
                    lemma_widen(ts, acc[k].span(), p, q, p, r);
                } else {
                    lemma_widen(ts, a.span(), q + 1, r, p, r);
                }
            };
            assert forall|k: int| 0 <= k < acc2.len() - 1 implies precedes(#[trigger] acc2[k].span(), acc2[k + 1].span()) by {
                if k < acc.len() - 1 {
                    assert(acc2[k] == acc[k] && acc2[k + 1] == acc[k + 1]);
                } else {
                    assert(acc2[k] == acc[k]);
                    assert(ts[q - 1].1.end <= ts[q + 1].1.start);
                }
            };
            lemma_or_rest_spanned(ts, p, r, acc2);
        }
    }
}

proof fn lemma_or_spanned(ts: Toks, p: int)
    requires
        tokens_ordered(ts),
    ensures
        p_or(ts, p) matches Ok((a, q)) ==> access_spanned(a) && access_ordered(a) && inside(a.span(), join(ts, p, q)),
    decreases ts.len() - p, 5nat,
{
    lemma_and_spanned(ts, p);
    lemma_and_progress(ts, p);
    if let Ok((a, q)) = p_and(ts, p) {
        assert(all_within(ts, seq![a], p, q));
        lemma_or_rest_spanned(ts, p, q, seq![a]);
        lemma_or_rest_progress(ts, q, seq![a]);
        if let Ok((cs, r)) = p_or_rest(ts, q, seq![a]) {
            assert(cs.len() >= 1);
            assert(access_spanned(cs[0]) && access_ordered(cs[0]));
            assert(ts[p].1.start <= ts[p].1.end);
            assert(ts[p].1.end <= ts[r - 1].1.end) by {
                if p < r - 1 {
                    assert(ts[p].1.end <= ts[r - 1].1.start);
                }
            };
        }
    }
}

proof fn lemma_relation_spanned(ts: Toks, p: int)
    requires
        tokens_ordered(ts),
        0 <= p,
    ensures
        p_relation(ts, p) matches Ok((r, q)) ==> relation_spanned(r) && inside(r.span, join(ts, p, q)),
{
    lemma_relation_progress(ts, p);
    if is_at(ts, p + 1, TokenKind::Identifier) && is_at(ts, p + 2, TokenKind::As) {
        lemma_or_spanned(ts, p + 3);
        lemma_or_progress(ts, p + 3);
        if let Ok((a, q)) = p_or(ts, p + 3) {
            lemma_widen(ts, a.span(), p + 3, q, p, q);
            lemma_widen(ts, Some(ts[p + 1].1), p + 1, p + 2, p, q);
        }
    }
}

proof fn lemma_relations_spanned(ts: Toks, lo: int, q: int, acc: Seq<RelationView>)
    requires
        tokens_ordered(ts),
        0 <= lo <= q <= ts.len(),
        acc.len() > 0 ==> lo < q,
        forall|k: int| 0 <= k < acc.len() ==> relation_spanned(#[trigger] acc[k]) && inside(acc[k].span, join(ts, lo, q)),
        forall|k: int| 0 <= k < acc.len() - 1 ==> precedes(#[trigger] acc[k].span, acc[k + 1].span),
    ensures
        p_relations(ts, q, acc) matches Ok((rs, r)) ==> (rs.len() > 0 ==> lo < r) && (forall|k: int|
            0 <= k < rs.len() ==> relation_spanned(#[trigger] rs[k]) && inside(rs[k].span, join(ts, lo, r)))
            && forall|k: int| 0 <= k < rs.len() - 1 ==> precedes(#[trigger] rs[k].span, rs[k + 1].span),
    decreases ts.len() - q,
{
    if is_at(ts, q, TokenKind::Define) {
        lemma_relation_spanned(ts, q);
        lemma_relation_progress(ts, q);
        if let Ok((x, q2)) = p_relation(ts, q) {
            let acc2 = acc.push(x);
            assert forall|k: int| 0 <= k < acc2.len() implies relation_spanned(#[trigger] acc2[k]) && inside(acc2[k].span, join(ts, lo, q2)) by {
                if k < acc.len() {
                    assert(acc2[k] == acc[k]);
                    lemma_widen(ts, acc[k].span, lo, q, lo, q2);
                } else {
                    lemma_widen(ts, x.span, q, q2, lo, q2);
                }
            };
            assert forall|k: int| 0 <= k < acc2.len() - 1 implies precedes(#[trigger] acc2[k].span, acc2[k + 1].span) by {
                if k < acc.len() - 1 {
                    assert(acc2[k] == acc[k] && acc2[k + 1] == acc[k + 1]);
                } else {
                    assert(acc2[k] == acc[k]);
                    if q - 1 < q {
                        assert(ts[q - 1].1.end <= ts[q].1.start);
                    }
                }
            };
            lemma_relations_spanned(ts, lo, q2, acc2);
        }
    }
}

proof fn lemma_type_spanned(ts: Toks, p: int)
    requires
        tokens_ordered(ts),
        0 <= p,
    ensures
        p_type(ts, p) matches Ok((t, q)) ==> type_spanned(t) && inside(t.span, join(ts, p, q)),
{
    if is_at(ts, p + 1, TokenKind::Identifier) && is_at(ts, p + 2, TokenKind::Relations) {
        lemma_relations_spanned(ts, p + 3, p + 3, Seq::empty());
        lemma_relations_progress(ts, p + 3, Seq::empty());
        if let Ok((rs, q)) = p_relations(ts, p + 3, Seq::empty()) {
            lemma_widen(ts, Some(ts[p + 1].1), p + 1, p + 2, p, q);
            assert(ts[p].1.start <= ts[p].1.end);
            assert(ts[p].1.end <= ts[q - 1].1.end) by {
                if p < q - 1 {
                    assert(ts[p].1.end <= ts[q - 1].1.start);
                }
            };
            assert forall|k: int| 0 <= k < rs.len() implies inside(rs[k].span, join(ts, p, q)) && relation_spanned(#[trigger] rs[k]) by {
                lemma_widen(ts, rs[k].span, p + 3, q, p, q);
            };
            assert forall|k: int| 0 <= k < rs.len() implies precedes(Some(ts[p + 1].1), #[trigger] rs[k].span) by {
                assert(ts[p + 1].1.end <= ts[p + 3].1.start);
            };
        }
    }
}

proof fn lemma_file_spanned(ts: Toks, p: int)
    requires
        tokens_ordered(ts),
        0 <= p,
    ensures
        forall|k: int| 0 <= k < p_file(ts, p).0.len() ==> type_spanned(#[trigger] p_file(ts, p).0[k])
            && ts[p].1.start <= p_file(ts, p).0[k].span->Some_0.start,
        forall|k: int| 0 <= k < p_file(ts, p).0.len() - 1 ==> precedes(
            #[trigger] p_file(ts, p).0[k].span,
            p_file(ts, p).0[k + 1].span,
        ),
    decreases ts.len() - p,
{
    if 0 <= p < ts.len() {
        lemma_next_type(ts, p + 1);
        let n = next_type(ts, p + 1);
        if n < ts.len() {
            assert(ts[p].1.end <= ts[n].1.start);
        }
        if is_at(ts, p, TokenKind::Type) {
            lemma_type_spanned(ts, p);
            lemma_type_progress(ts, p);
            match p_type(ts, p) {
                Ok((t, q)) => {
                    lemma_file_spanned(ts, q);
                    let all = p_file(ts, p).0;
                    let rest = p_file(ts, q).0;
                    assert(all == seq![t] + rest);
                    if rest.len() > 0 {
                        assert(q < ts.len());
                        assert(ts[q - 1].1.end <= ts[q].1.start);
                        assert(ts[p].1.start <= ts[q].1.start);
                    }
                    assert forall|k: int| 0 <= k < all.len() implies type_spanned(#[trigger] all[k]) && ts[p].1.start <= all[k].span->Some_0.start by {
                        if k > 0 {
                            assert(all[k] == rest[k - 1]);
                        }
                    };
                    assert forall|k: int| 0 <= k < all.len() - 1 implies precedes(#[trigger] all[k].span, all[k + 1].span) by {
                        if k > 0 {
                            assert(all[k] == rest[k - 1] && all[k + 1] == rest[k]);
                        } else {
                            assert(all[1] == rest[0]);
                        }
                    };
                },
                Err(_) => {
                    lemma_file_spanned(ts, n);
                    assert(p_file(ts, p).0 == p_file(ts, n).0);
                },
            }
        } else {
            lemma_file_spanned(ts, n);
            assert(p_file(ts, p).0 == p_file(ts, n).0);
        }
    }
}

/// Every node that parsing yields has a span, and each child's span,
/// identifiers' included, lies within its parent's. Siblings (types,
/// relations, operands) come in source order.
pub proof fn lemma_parsed_nodes_spanned(src: Seq<char>)
    requires
        crate::text::byte_len(src) <= usize::MAX,
    ensures
        forall|k: int| 0 <= k < p_file(source_tokens(src), 0).0.len() ==> type_spanned(
            #[trigger] p_file(source_tokens(src), 0).0[k],
        ),
        forall|k: int| 0 <= k < p_file(source_tokens(src), 0).0.len() - 1 ==> precedes(
            #[trigger] p_file(source_tokens(src), 0).0[k].span,
            p_file(source_tokens(src), 0).0[k + 1].span,
        ),
{
    crate::lexer::lemma_scan_ordered(src, 0);
    lemma_file_spanned(source_tokens(src), 0);
}

} // verus!
