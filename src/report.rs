//! Reports of violations and syntax errors as plain data: a code, a message,
//! labelled spans and a note. Parts of a message may carry a colour; drawing
//! the report is left to the caller.

use vstd::prelude::*;
use crate::checker::{ModelError, ModelErrorView};
use crate::lexer::{Token, TokenView};
use crate::model::Span;
use crate::parser::{ParseError, ParseErrorView, TokenKind};

verus! {

#[derive(Debug, Clone, Copy, PartialEq, Eq, Structural)]
pub enum ReportColor {
    Red,
    Yellow,
    Green,
    Blue,
}

/// A piece of message text, drawn in `color` when there is one.
#[derive(Debug, PartialEq, Eq)]
pub struct MessagePart {
    pub text: String,
    pub color: Option<ReportColor>,
}

#[derive(Debug, PartialEq, Eq)]
pub struct ReportLabel {
    pub span: Span,
    pub message: Vec<MessagePart>,
    pub color: ReportColor,
}

#[derive(Debug, PartialEq, Eq)]
pub struct Report {
    pub code: u64,
    pub offset: usize,
    pub message: Vec<MessagePart>,
    pub labels: Vec<ReportLabel>,
    pub note: Option<String>,
}

pub ghost struct PartView {
    pub text: Seq<char>,
    pub color: Option<ReportColor>,
}

pub ghost struct LabelView {
    pub span: Span,
    pub message: Seq<PartView>,
    pub color: ReportColor,
}

pub ghost struct ReportView {
    pub code: u64,
    pub offset: usize,
    pub message: Seq<PartView>,
    pub labels: Seq<LabelView>,
    pub note: Option<Seq<char>>,
}

pub open spec fn parts_view(ps: Seq<MessagePart>) -> Seq<PartView> {
    Seq::new(ps.len(), |i: int| PartView { text: ps[i].text@, color: ps[i].color })
}

pub open spec fn labels_view(ls: Seq<ReportLabel>) -> Seq<LabelView> {
    Seq::new(
        ls.len(),
        |i: int| LabelView { span: ls[i].span, message: parts_view(ls[i].message@), color: ls[i].color },
    )
}

impl View for Report {
    type V = ReportView;

    open spec fn view(&self) -> ReportView {
        ReportView {
            code: self.code,
            offset: self.offset,
            message: parts_view(self.message@),
            labels: labels_view(self.labels@),
            note: match self.note {
                Some(n) => Some(n@),
                None => None,
            },
        }
    }
}

pub open spec fn plain(t: Seq<char>) -> PartView {
    PartView { text: t, color: None }
}

pub open spec fn painted(t: Seq<char>, c: ReportColor) -> PartView {
    PartView { text: t, color: Some(c) }
}

fn push_part(v: &mut Vec<MessagePart>, text: &str, color: Option<ReportColor>)
    ensures
        parts_view(final(v)@) == parts_view(old(v)@).push(PartView { text: text@, color }),
{
    v.push(MessagePart { text: String::from_str(text), color });
    assert(parts_view(v@) =~= parts_view(old(v)@).push(PartView { text: text@, color }));
}

fn push_label(v: &mut Vec<ReportLabel>, span: Span, message: Vec<MessagePart>, color: ReportColor)
    ensures
        labels_view(final(v)@) == labels_view(old(v)@).push(
            LabelView { span, message: parts_view(message@), color },
        ),
{
    let ghost m = parts_view(message@);
    v.push(ReportLabel { span, message, color });
    assert(labels_view(v@) =~= labels_view(old(v)@).push(LabelView { span, message: m, color }));
}

fn unwrap_span(s: Option<Span>) -> (r: Span)
    requires
        s is Some,
    ensures
        s == Some(r),
{
    match s {
        Some(x) => x,
        None => Span { start: 0, end: 0 },
    }
}

/// The spans that the report of a violation labels are all present.
pub open spec fn report_spans_present(e: ModelErrorView) -> bool {
    match e {
        ModelErrorView::DuplicateTypeName { type1, type2 } => type1.span is Some && type2.span is Some,
        ModelErrorView::DuplicateRelationName { relation1, relation2, target_type } => relation1.span is Some
            && relation2.span is Some && target_type.span is Some,
        ModelErrorView::UnknownRelation { relation_identifier, target_type, .. } => relation_identifier.span is Some
            && target_type.span is Some,
        ModelErrorView::SelfReferencingRelation { relation_identifier, target_type, .. } =>
            relation_identifier.span is Some && target_type.span is Some,
    }
}

/// The report of a violation: the code, a message naming the nodes, a label
/// on each span involved, and a note on the rule.
pub open spec fn model_report(e: ModelErrorView) -> ReportView {
    match e {
        ModelErrorView::DuplicateTypeName { type1, type2 } => {
            let n = type1.identifier.name;
            ReportView {
                code: 201,
                offset: type1.span->Some_0.start,
                message: seq![plain("Type with name "@), painted(n, ReportColor::Blue), plain(" got defined twice"@)],
                labels: seq![
                    LabelView {
                        span: type1.span->Some_0,
                        message: seq![plain("Type with name "@), painted(n, ReportColor::Blue), plain(" first was defined here"@)],
                        color: ReportColor::Red,
                    },
                    LabelView {
                        span: type2.span->Some_0,
                        message: seq![plain("and later here again!"@)],
                        color: ReportColor::Red,
                    },
                ],
                note: Some("The names of type must be unique inside the model"@),
            }
        },
        ModelErrorView::DuplicateRelationName { relation1, relation2, target_type } => {
            let n = relation1.identifier.name;
            let tn = target_type.identifier.name;
            ReportView {
                code: 202,
                offset: target_type.span->Some_0.start,
                message: seq![
                    plain("Relation "@),
                    painted(n, ReportColor::Blue),
                    plain(" got defined twice on type "@),
                    painted(tn, ReportColor::Blue),
                ],
                labels: seq![
                    LabelView {
                        span: relation1.span->Some_0,
                        message: seq![plain("Relation "@), painted(n, ReportColor::Blue), plain(" first was defined here"@)],
                        color: ReportColor::Red,
                    },
                    LabelView {
                        span: relation2.span->Some_0,
                        message: seq![plain("and again here"@)],
                        color: ReportColor::Red,
                    },
                    LabelView {
                        span: target_type.span->Some_0,
                        message: seq![plain("on type "@), painted(tn, ReportColor::Blue)],
                        color: ReportColor::Blue,
                    },
                ],
                note: Some("The names of relations must be unique inside a single type"@),
            }
        },
        ModelErrorView::UnknownRelation { relation_identifier, relation, target_type, .. } => {
            let rn = relation.identifier.name;
            let tn = target_type.identifier.name;
            let n = relation_identifier.name;
            ReportView {
                code: 203,
                offset: target_type.span->Some_0.start,
                message: seq![
                    plain("Relation definition "@),
                    painted(rn, ReportColor::Green),
                    plain(" on type "@),
                    painted(tn, ReportColor::Blue),
                    plain(" references relation "@),
                    painted(n, ReportColor::Green),
                    plain(", which does not exist"@),
                ],
                labels: seq![
                    LabelView {
                        span: relation_identifier.span->Some_0,
                        message: seq![
                            plain("Relation "@),
                            painted(n, ReportColor::Green),
                            plain(" mentioned here does not exist on type "@),
                            painted(tn, ReportColor::Blue),
                        ],
                        color: ReportColor::Red,
                    },
                ],
                note: Some("Relations actually do need to exist"@),
            }
        },
        ModelErrorView::SelfReferencingRelation { relation_identifier, relation, target_type, .. } => {
            let rn = relation.identifier.name;
            let tn = target_type.identifier.name;
            ReportView {
                code: 204,
                offset: target_type.span->Some_0.start,
                message: seq![
                    plain("Relation definition "@),
                    painted(rn, ReportColor::Green),
                    plain(" on type "@),
                    painted(tn, ReportColor::Blue),
                    plain(" references itself"@),
                ],
                labels: seq![
                    LabelView {
                        span: relation_identifier.span->Some_0,
                        message: seq![plain("Relation "@), painted(relation_identifier.name, ReportColor::Green), plain(" mentions itself here"@)],
                        color: ReportColor::Red,
                    },
                ],
                note: Some("Relations can't reference themselves"@),
            }
        },
    }
}

/// The report of a violation, as `model_report` gives it.
pub fn build_model_error_report(e: &ModelError) -> (r: Report)
    requires
        report_spans_present(e@),
    ensures
        r@ == model_report(e@),
{
    let mut message: Vec<MessagePart> = Vec::new();
    let mut labels: Vec<ReportLabel> = Vec::new();
    match e {
        ModelError::DuplicateTypeName { type1, type2 } => {
            let n = type1.identifier.name.as_str();
            let s1 = unwrap_span(type1.span);
            push_part(&mut message, "Type with name ", None);
            push_part(&mut message, n, Some(ReportColor::Blue));
            push_part(&mut message, " got defined twice", None);
            let mut l1: Vec<MessagePart> = Vec::new();
            push_part(&mut l1, "Type with name ", None);
            push_part(&mut l1, n, Some(ReportColor::Blue));
            push_part(&mut l1, " first was defined here", None);
            push_label(&mut labels, s1, l1, ReportColor::Red);
            let mut l2: Vec<MessagePart> = Vec::new();
            push_part(&mut l2, "and later here again!", None);
            push_label(&mut labels, unwrap_span(type2.span), l2, ReportColor::Red);
            let r = Report {
                code: 201,
                offset: s1.start,
                message,
                labels,
                note: Some(String::from_str("The names of type must be unique inside the model")),
            };
            assert(r@.message =~= model_report(e@).message);
            assert(r@.labels[0].message =~= model_report(e@).labels[0].message);
            assert(r@.labels[1].message =~= model_report(e@).labels[1].message);
            assert(r@.labels =~= model_report(e@).labels);
            r
        },
        ModelError::DuplicateRelationName { relation1, relation2, target_type } => {
            let n = relation1.identifier.name.as_str();
            let tn = target_type.identifier.name.as_str();
            let ts = unwrap_span(target_type.span);
            push_part(&mut message, "Relation ", None);
            push_part(&mut message, n, Some(ReportColor::Blue));
            push_part(&mut message, " got defined twice on type ", None);
            push_part(&mut message, tn, Some(ReportColor::Blue));
            let mut l1: Vec<MessagePart> = Vec::new();
            push_part(&mut l1, "Relation ", None);
            push_part(&mut l1, n, Some(ReportColor::Blue));
            push_part(&mut l1, " first was defined here", None);
            push_label(&mut labels, unwrap_span(relation1.span), l1, ReportColor::Red);
            let mut l2: Vec<MessagePart> = Vec::new();
            push_part(&mut l2, "and again here", None);
            push_label(&mut labels, unwrap_span(relation2.span), l2, ReportColor::Red);
            let mut l3: Vec<MessagePart> = Vec::new();
            push_part(&mut l3, "on type ", None);
            push_part(&mut l3, tn, Some(ReportColor::Blue));
            push_label(&mut labels, ts, l3, ReportColor::Blue);
            let r = Report {
                code: 202,
                offset: ts.start,
                message,
                labels,
                note: Some(String::from_str("The names of relations must be unique inside a single type")),
            };
            assert(r@.message =~= model_report(e@).message);
            assert(r@.labels[0].message =~= model_report(e@).labels[0].message);
            assert(r@.labels[1].message =~= model_report(e@).labels[1].message);
            assert(r@.labels[2].message =~= model_report(e@).labels[2].message);
            assert(r@.labels =~= model_report(e@).labels);
            r
        },
        ModelError::UnknownRelation { relation_identifier, relation, target_type, .. } => {
            let rn = relation.identifier.name.as_str();
            let tn = target_type.identifier.name.as_str();
            let n = relation_identifier.name.as_str();
            let ts = unwrap_span(target_type.span);
            push_part(&mut message, "Relation definition ", None);
            push_part(&mut message, rn, Some(ReportColor::Green));
            push_part(&mut message, " on type ", None);
            push_part(&mut message, tn, Some(ReportColor::Blue));
            push_part(&mut message, " references relation ", None);
            push_part(&mut message, n, Some(ReportColor::Green));
            push_part(&mut message, ", which does not exist", None);
            let mut l1: Vec<MessagePart> = Vec::new();
            push_part(&mut l1, "Relation ", None);
            push_part(&mut l1, n, Some(ReportColor::Green));
            push_part(&mut l1, " mentioned here does not exist on type ", None);
            push_part(&mut l1, tn, Some(ReportColor::Blue));
            push_label(&mut labels, unwrap_span(relation_identifier.span), l1, ReportColor::Red);
            let r = Report {
                code: 203,
                offset: ts.start,
                message,
                labels,
                note: Some(String::from_str("Relations actually do need to exist")),
            };
            assert(r@.message =~= model_report(e@).message);
            assert(r@.labels[0].message =~= model_report(e@).labels[0].message);
            assert(r@.labels =~= model_report(e@).labels);
            r
        },
        ModelError::SelfReferencingRelation { relation_identifier, relation, target_type, .. } => {
            let rn = relation.identifier.name.as_str();
            let tn = target_type.identifier.name.as_str();
            let ts = unwrap_span(target_type.span);
            push_part(&mut message, "Relation definition ", None);
            push_part(&mut message, rn, Some(ReportColor::Green));
            push_part(&mut message, " on type ", None);
            push_part(&mut message, tn, Some(ReportColor::Blue));
            push_part(&mut message, " references itself", None);
            let mut l1: Vec<MessagePart> = Vec::new();
            push_part(&mut l1, "Relation ", None);
            push_part(&mut l1, relation_identifier.name.as_str(), Some(ReportColor::Green));
            push_part(&mut l1, " mentions itself here", None);
            push_label(&mut labels, unwrap_span(relation_identifier.span), l1, ReportColor::Red);
            let r = Report {
                code: 204,
                offset: ts.start,
                message,
                labels,
                note: Some(String::from_str("Relations can't reference themselves")),
            };
            assert(r@.message =~= model_report(e@).message);
            assert(r@.labels[0].message =~= model_report(e@).labels[0].message);
            assert(r@.labels =~= model_report(e@).labels);
            r
        },
    }
}

/// The text of a keyword or punctuation kind; an identifier kind reads `identifier`.
pub open spec fn kind_text(k: TokenKind) -> Seq<char> {
    match k {
        TokenKind::Type => "type"@,
        TokenKind::Relations => "relations"@,
        TokenKind::SelfRef => "self"@,
        TokenKind::Define => "define"@,
        TokenKind::And => "and"@,
        TokenKind::Or => "or"@,
        TokenKind::From => "from"@,
        TokenKind::As => "as"@,
        TokenKind::But => "but"@,
        TokenKind::Not => "not"@,
        TokenKind::OpenParenthesis => "("@,
        TokenKind::CloseParenthesis => ")"@,
        TokenKind::Identifier => "identifier"@,
    }
}

/// The source text of a token.
pub open spec fn token_text(t: TokenView) -> Seq<char> {
    match t {
        TokenView::Type => "type"@,
        TokenView::Relations => "relations"@,
        TokenView::SelfRef => "self"@,
        TokenView::Define => "define"@,
        TokenView::And => "and"@,
        TokenView::Or => "or"@,
        TokenView::From => "from"@,
        TokenView::As => "as"@,
        TokenView::But => "but"@,
        TokenView::Not => "not"@,
        TokenView::OpenParenthesis => "("@,
        TokenView::CloseParenthesis => ")"@,
        TokenView::Identifier(s) => s,
    }
}

fn kind_str(k: TokenKind) -> (r: &'static str)
    ensures
        r@ == kind_text(k),
{
    match k {
        TokenKind::Type => "type",
        TokenKind::Relations => "relations",
        TokenKind::SelfRef => "self",
        TokenKind::Define => "define",
        TokenKind::And => "and",
        TokenKind::Or => "or",
        TokenKind::From => "from",
        TokenKind::As => "as",
        TokenKind::But => "but",
        TokenKind::Not => "not",
        TokenKind::OpenParenthesis => "(",
        TokenKind::CloseParenthesis => ")",
        TokenKind::Identifier => "identifier",
    }
}

impl Token {
    /// The source text of this token.
    pub fn to_text(&self) -> (r: String)
        ensures
            r@ == token_text(self@),
    {
        match self {
            Token::Identifier(s) => s.clone(),
            Token::Type => String::from_str("type"),
            Token::Relations => String::from_str("relations"),
            Token::SelfRef => String::from_str("self"),
            Token::Define => String::from_str("define"),
            Token::And => String::from_str("and"),
            Token::Or => String::from_str("or"),
            Token::From => String::from_str("from"),
            Token::As => String::from_str("as"),
            Token::But => String::from_str("but"),
            Token::Not => String::from_str("not"),
            Token::OpenParenthesis => String::from_str("("),
            Token::CloseParenthesis => String::from_str(")"),
        }
    }
}

/// The expected kinds, each painted, separated by commas.
pub open spec fn expected_parts(ks: Seq<TokenKind>) -> Seq<PartView>
    decreases ks.len(),
{
    if ks.len() == 0 {
        Seq::empty()
    } else if ks.len() == 1 {
        seq![painted(kind_text(ks[0]), ReportColor::Blue)]
    } else {
        expected_parts(ks.drop_last()) + seq![plain(", "@), painted(kind_text(ks.last()), ReportColor::Blue)]
    }
}

/// The message of a syntax error: what was found, then what was expected.
pub open spec fn parse_error_message(e: ParseErrorView) -> Seq<PartView> {
    (match e.found {
        Some(t) => seq![plain("Found unexpected token "@), painted(token_text(t), ReportColor::Blue)],
        None => seq![plain("Found unexpected "@), painted("end of input"@, ReportColor::Blue)],
    }) + seq![plain(", expected instead "@)] + if e.expected.len() == 0 {
        seq![plain("something else"@)]
    } else {
        expected_parts(e.expected)
    }
}

/// The report of a syntax error: its message, a label on the token met, and
/// one on the delimiter left open, if any.
pub open spec fn parse_report(e: ParseErrorView) -> ReportView {
    let first = LabelView {
        span: e.span,
        message: match e.found {
            Some(t) => seq![plain("Unexpected token "@), painted(token_text(t), ReportColor::Red)],
            None => seq![plain("Unexpected end of input"@)],
        },
        color: ReportColor::Red,
    };
    ReportView {
        code: 3,
        offset: e.span.start,
        message: parse_error_message(e),
        labels: match e.unclosed {
            Some(u) => seq![
                first,
                LabelView {
                    span: u,
                    message: seq![plain("Unclosed delimiter "@), painted("("@, ReportColor::Yellow)],
                    color: ReportColor::Yellow,
                },
            ],
            None => seq![first],
        },
        note: None,
    }
}

/// The message of a syntax error, as `parse_error_message` gives it.
pub fn get_simple_token_error_message(e: &ParseError) -> (r: Vec<MessagePart>)
    ensures
        parts_view(r@) == parse_error_message(e@),
{
    let mut m: Vec<MessagePart> = Vec::new();
    match &e.found {
        Some(t) => {
            push_part(&mut m, "Found unexpected token ", None);
            let text = t.to_text();
            push_part(&mut m, text.as_str(), Some(ReportColor::Blue));
        },
        None => {
            push_part(&mut m, "Found unexpected ", None);
            push_part(&mut m, "end of input", Some(ReportColor::Blue));
        },
    }
    push_part(&mut m, ", expected instead ", None);
    let ghost head = parts_view(m@);
    if e.expected.len() == 0 {
        push_part(&mut m, "something else", None);
    } else {
        let mut i: usize = 0;
        while i < e.expected.len()
            invariant
                0 <= i <= e.expected@.len(),
                e.expected@.len() > 0,
                parts_view(m@) == head + expected_parts(e.expected@.take(i as int)),
            decreases e.expected@.len() - i,
        {
            let ghost before = parts_view(m@);
            if i > 0 {
                push_part(&mut m, ", ", None);
            }
            push_part(&mut m, kind_str(e.expected[i]), Some(ReportColor::Blue));
            proof {
                let t = e.expected@.take(i + 1);
                assert(t.drop_last() =~= e.expected@.take(i as int));
                if i == 0 {
                    assert(e.expected@.take(0) =~= Seq::<TokenKind>::empty());
                    assert(expected_parts(t) =~= seq![painted(kind_text(e.expected@[0]), ReportColor::Blue)]);
                }
                assert(parts_view(m@) =~= head + expected_parts(t));
            }
            i = i + 1;
        }
        assert(e.expected@.take(i as int) =~= e.expected@);
    }
    let ghost want = parse_error_message(e@);
    assert(parts_view(m@) =~= want);
    m
}

/// The report of a syntax error, as `parse_report` gives it.
pub fn build_simple_token_report(e: &ParseError) -> (r: Report)
    ensures
        r@ == parse_report(e@),
{
    let message = get_simple_token_error_message(e);
    let mut labels: Vec<ReportLabel> = Vec::new();
    let mut first: Vec<MessagePart> = Vec::new();
    match &e.found {
        Some(t) => {
            push_part(&mut first, "Unexpected token ", None);
            let text = t.to_text();
            push_part(&mut first, text.as_str(), Some(ReportColor::Red));
        },
        None => {
            push_part(&mut first, "Unexpected end of input", None);
        },
    }
    push_label(&mut labels, e.span, first, ReportColor::Red);
    match e.unclosed {
        Some(u) => {
            let mut l: Vec<MessagePart> = Vec::new();
            push_part(&mut l, "Unclosed delimiter ", None);
            push_part(&mut l, "(", Some(ReportColor::Yellow));
            push_label(&mut labels, u, l, ReportColor::Yellow);
        },
        None => {},
    }
    let r = Report { code: 3, offset: e.span.start, message, labels, note: None };
    proof {
        let want = parse_report(e@);
        assert(r@.labels[0].message =~= want.labels[0].message);
        if e.unclosed is Some {
            assert(r@.labels[1].message =~= want.labels[1].message);
        }
        assert(r@.labels =~= want.labels);
    }
    r
}

/// The one-line message of a violation.
pub open spec fn violation_message(e: ModelErrorView) -> Seq<char> {
    match e {
        ModelErrorView::DuplicateTypeName { type1, .. } => "Type with name "@ + type1.identifier.name
            + " was defined twice"@,
        ModelErrorView::DuplicateRelationName { relation1, target_type, .. } => "Relation "@
            + relation1.identifier.name + " got defined twice on type "@ + target_type.identifier.name,
        ModelErrorView::UnknownRelation { relation_identifier, relation, target_type, .. } =>
            "Relation definition "@ + relation.identifier.name + " on type "@ + target_type.identifier.name
            + " references relation "@ + relation_identifier.name + ", which does not exist"@,
        ModelErrorView::SelfReferencingRelation { relation, target_type, .. } => "Relation definition "@
            + relation.identifier.name + " on type "@ + target_type.identifier.name + " references itself"@,
    }
}

impl ModelError {
    /// The one-line message of this violation.
    pub fn message(&self) -> (r: String)
        ensures
            r@ == violation_message(self@),
    {
        match self {
            ModelError::DuplicateTypeName { type1, .. } => {
                let mut m = String::from_str("Type with name ");
                m.append(type1.identifier.name.as_str());
                m.append(" was defined twice");
                m
            },
            ModelError::DuplicateRelationName { relation1, target_type, .. } => {
                let mut m = String::from_str("Relation ");
                m.append(relation1.identifier.name.as_str());
                m.append(" got defined twice on type ");
                m.append(target_type.identifier.name.as_str());
                m
            },
            ModelError::UnknownRelation { relation_identifier, relation, target_type, .. } => {
                let mut m = String::from_str("Relation definition ");
                m.append(relation.identifier.name.as_str());
                m.append(" on type ");
                m.append(target_type.identifier.name.as_str());
                m.append(" references relation ");
                m.append(relation_identifier.name.as_str());
                m.append(", which does not exist");
                m
            },
            ModelError::SelfReferencingRelation { relation, target_type, .. } => {
                let mut m = String::from_str("Relation definition ");
                m.append(relation.identifier.name.as_str());
                m.append(" on type ");
                m.append(target_type.identifier.name.as_str());
                m.append(" references itself");
                m
            },
        }
    }
}

} // verus!
