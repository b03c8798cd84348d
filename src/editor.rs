//! What an editor integration computes for a document: its analysis after
//! each change, diagnostics, semantic tokens and document symbols. Positions
//! are zero-based lines and character columns.

use vstd::prelude::*;
use crate::checker::{check_model, error_views, violations, ModelError, ModelErrorView};
use crate::lexer::{lemma_scan_ordered, lexer, scan, token_views, LexError, Token, TokenView};
use crate::model::{AuthorizationModel, ModelView, RelationView, Span, Type, TypeView};
use crate::parser::{
    better_parser, errors_of, p_file, parse_error_views, source_tokens, ParseErrorView,
};
use crate::report::{
    get_simple_token_error_message, parse_error_message, parts_view, violation_message, MessagePart,
    PartView,
};
use crate::source_map::{
    chars_within, lemma_position_mono, line_start, newlines_before, position_of, SourceMap,
};
use crate::text::byte_len;

verus! {

/// A token's class for highlighting, delta-encoded against the token before it.
#[derive(Debug, Clone, Copy, PartialEq, Eq, Structural)]
pub struct SemanticToken {
    pub delta_line: usize,
    pub delta_start: usize,
    pub length: usize,
    pub token_type: usize,
}

/// The last successful analysis of a document: its text, tokens and model.
pub struct Analysis {
    pub map: SourceMap,
    pub tokens: Vec<(Token, Span)>,
    pub model: AuthorizationModel,
}

impl Analysis {
    /// The tokens and the model are those of the text.
    pub open spec fn wf(&self) -> bool {
        &&& self.map.wf()
        &&& token_views(self.tokens@) == scan(self.map.text(), 0).0
        &&& self.model@.types == p_file(source_tokens(self.map.text()), 0).0
    }
}

/// The highlighting class of a token: keyword 0, operator 1, class 2, method 3.
pub open spec fn semantic_type(t: TokenView) -> usize {
    match t {
        TokenView::Type | TokenView::Define | TokenView::Relations | TokenView::As => 0,
        TokenView::Identifier(_) => 2,
        TokenView::SelfRef => 3,
        _ => 1,
    }
}

pub open spec fn is_paren(t: TokenView) -> bool {
    t is OpenParenthesis || t is CloseParenthesis
}

/// A token's line, column, length in characters, and class.
pub ghost struct Mark {
    pub line: int,
    pub col: int,
    pub len: int,
    pub kind: usize,
}

pub open spec fn mark_of(s: Seq<char>, t: (TokenView, Span)) -> Mark {
    let c = chars_within(s, t.1.start as int) as int;
    let l = newlines_before(s, c) as int;
    Mark { line: l, col: c - line_start(s, l), len: chars_within(s, t.1.end as int) - c, kind: semantic_type(t.0) }
}

/// The marks of the tokens other than parentheses, in order.
pub open spec fn marks(s: Seq<char>, ts: Seq<(TokenView, Span)>) -> Seq<Mark>
    decreases ts.len(),
{
    if ts.len() == 0 {
        Seq::empty()
    } else if is_paren(ts.last().0) {
        marks(s, ts.drop_last())
    } else {
        marks(s, ts.drop_last()).push(mark_of(s, ts.last()))
    }
}

/// Mark `k` encoded against mark `k - 1` (or against line 0, column 0).
pub open spec fn delta(ms: Seq<Mark>, k: int) -> SemanticToken {
    let prev_line = if k == 0 {
        0
    } else {
        ms[k - 1].line
    };
    let prev_col = if k == 0 {
        0
    } else {
        ms[k - 1].col
    };
    let dl = ms[k].line - prev_line;
    SemanticToken {
        delta_line: dl as usize,
        delta_start: (if dl == 0 {
            ms[k].col - prev_col
        } else {
            ms[k].col
        }) as usize,
        length: ms[k].len as usize,
        token_type: ms[k].kind,
    }
}

pub open spec fn semantic_tokens_of(s: Seq<char>) -> Seq<SemanticToken> {
    let ms = marks(s, scan(s, 0).0);
    Seq::new(ms.len(), |k: int| delta(ms, k))
}

fn token_type_of(t: &Token) -> (r: usize)
    ensures
        r == semantic_type(t@),
{
    match t {
        Token::Type | Token::Define | Token::Relations | Token::As => 0,
        Token::Identifier(_) => 2,
        Token::SelfRef => 3,
        _ => 1,
    }
}

/// The semantic tokens of the analysed text: every token but parentheses.
pub fn semantic_tokens(a: &Analysis) -> (r: Vec<SemanticToken>)
    requires
        a.wf(),
    ensures
        r@ == semantic_tokens_of(a.map.text()),
{
    let ghost s = a.map.text();
    let ghost ts = token_views(a.tokens@);
    let _total = a.map.len_bytes();
    proof {
        lemma_scan_ordered(s, 0);
    }
    let mut out: Vec<SemanticToken> = Vec::new();
    let mut prev_line: usize = 0;
    let mut prev_col: usize = 0;
    let ghost mut prev_start: int = 0;
    let mut i: usize = 0;
    assert(ts.take(0) =~= Seq::<(TokenView, Span)>::empty());
    while i < a.tokens.len()
        invariant
            a.wf(),
            s == a.map.text(),
            ts == token_views(a.tokens@),
            ts == scan(s, 0).0,
            forall|k: int| 0 <= k < ts.len() ==> 0 <= (#[trigger] ts[k]).1.start <= ts[k].1.end <= byte_len(s),
            forall|x: int, y: int| 0 <= x < y < ts.len() ==> (#[trigger] ts[x]).1.end <= (#[trigger] ts[y]).1.start,
            0 <= i <= ts.len(),
            ({
                let ms = marks(s, ts.take(i as int));
                &&& out@ == Seq::new(ms.len(), |k: int| delta(ms, k))
                &&& ms.len() == 0 ==> prev_line == 0 && prev_col == 0 && prev_start == 0
                &&& ms.len() > 0 ==> prev_line == ms.last().line && prev_col == ms.last().col
                    && ms.last() == mark_of(s, (ts[prev_start].0, ts[prev_start].1))
                    && 0 <= prev_start < i
            }),
        decreases ts.len() - i,
    {
        let ghost ms0 = marks(s, ts.take(i as int));
        assert(ts.take(i + 1).drop_last() =~= ts.take(i as int));
        assert(ts.take(i + 1).last() == ts[i as int]);
        assert(ts[i as int] == (a.tokens@[i as int].0@, a.tokens@[i as int].1));
        let t = &a.tokens[i];
        match t.0 {
            Token::OpenParenthesis | Token::CloseParenthesis => {},
            _ => {
                let start = t.1.start;
                let end = t.1.end;
                let (line, col) = a.map.offset_to_lc(start);
                let c0 = a.map.char_index(start);
                let c1 = a.map.char_index(end);
                proof {
                    crate::source_map::lemma_chars_within_mono(s, start as int, end as int);
                    if ms0.len() > 0 {
                        let ps = ts[prev_start].1.start as int;
                        assert(ts[prev_start].1.end <= ts[i as int].1.start);
                        lemma_position_mono(s, ps, start as int);
                    }
                }
                let dl = line - prev_line;
                let ds = if dl == 0 {
                    col - prev_col
                } else {
                    col
                };
                let st = SemanticToken { delta_line: dl, delta_start: ds, length: c1 - c0, token_type: token_type_of(&t.0) };
                let ghost ms1 = ms0.push(mark_of(s, ts[i as int]));
                out.push(st);
                proof {
                    assert(out@ =~= Seq::new(ms1.len(), |k: int| delta(ms1, k)));
                    prev_start = i as int;
                }
                prev_line = line;
                prev_col = col;
            },
        }
        i = i + 1;
    }
    assert(ts.take(i as int) =~= ts);
    out
}

/// A zero-based line and a character column.
#[derive(Debug, Clone, Copy, PartialEq, Eq, Structural)]
pub struct Position {
    pub line: usize,
    pub character: usize,
}

#[derive(Debug, Clone, Copy, PartialEq, Eq, Structural)]
pub struct TextRange {
    pub start: Position,
    pub end: Position,
}

pub open spec fn to_position(p: (usize, usize)) -> Position {
    Position { line: p.0, character: p.1 }
}

/// The positions of a span of `s`; an offset past the end stands for the end,
/// and an absent span for the start of the text.
pub open spec fn range_of(s: Seq<char>, span: Option<Span>) -> TextRange {
    let sp = match span {
        Some(x) => x,
        None => Span { start: 0, end: 0 },
    };
    let clamp = |o: usize| if o <= byte_len(s) {
        o as int
    } else {
        byte_len(s) as int
    };
    TextRange { start: to_position(position_of(s, clamp(sp.start))), end: to_position(position_of(s, clamp(sp.end))) }
}

fn range_exec(map: &SourceMap, span: Option<Span>) -> (r: TextRange)
    requires
        map.wf(),
    ensures
        r == range_of(map.text(), span),
{
    let sp = match span {
        Some(x) => x,
        None => Span { start: 0, end: 0 },
    };
    let a = map.position(sp.start);
    let b = map.position(sp.end);
    TextRange { start: Position { line: a.0, character: a.1 }, end: Position { line: b.0, character: b.1 } }
}

#[derive(Debug, Clone, Copy, PartialEq, Eq, Structural)]
pub enum SymbolKind {
    Class,
    Method,
}

/// A type (with its relations as children) or a relation, for an outline.
#[derive(Debug, PartialEq, Eq)]
pub struct DocumentSymbol {
    pub name: String,
    pub kind: SymbolKind,
    pub range: TextRange,
    pub selection_range: TextRange,
    pub children: Vec<DocumentSymbol>,
}

pub ghost struct SymbolView {
    pub name: Seq<char>,
    pub kind: SymbolKind,
    pub range: TextRange,
    pub selection_range: TextRange,
    pub children: Seq<SymbolView>,
}

pub open spec fn symbol_view(d: DocumentSymbol) -> SymbolView
    decreases d,
{
    SymbolView {
        name: d.name@,
        kind: d.kind,
        range: d.range,
        selection_range: d.selection_range,
        children: Seq::new(d.children@.len(), |i: int| if 0 <= i < d.children@.len() { symbol_view(d.children@[i]) } else { SymbolView { name: Seq::empty(), kind: SymbolKind::Class, range: d.range, selection_range: d.range, children: Seq::empty() } }),
    }
}

impl View for DocumentSymbol {
    type V = SymbolView;

    open spec fn view(&self) -> SymbolView {
        symbol_view(*self)
    }
}

pub open spec fn symbol_views(ds: Seq<DocumentSymbol>) -> Seq<SymbolView> {
    Seq::new(ds.len(), |i: int| ds[i]@)
}

/// The symbol of a relation: its whole definition, selecting its name.
pub open spec fn relation_symbol(s: Seq<char>, r: RelationView) -> SymbolView {
    SymbolView {
        name: r.identifier.name,
        kind: SymbolKind::Method,
        range: range_of(s, r.span),
        selection_range: range_of(s, r.identifier.span),
        children: Seq::empty(),
    }
}

/// The symbol of a type: its whole block, selecting its name, with one child
/// per relation.
pub open spec fn type_symbol(s: Seq<char>, t: TypeView) -> SymbolView {
    SymbolView {
        name: t.identifier.name,
        kind: SymbolKind::Class,
        range: range_of(s, t.span),
        selection_range: range_of(s, t.identifier.span),
        children: Seq::new(t.relations.len(), |k: int| relation_symbol(s, t.relations[k])),
    }
}

fn type_to_symbol(map: &SourceMap, t: &Type) -> (r: DocumentSymbol)
    requires
        map.wf(),
    ensures
        r@ == type_symbol(map.text(), t@),
{
    let mut children: Vec<DocumentSymbol> = Vec::new();
    let mut k: usize = 0;
    while k < t.relations.len()
        invariant
            map.wf(),
            0 <= k <= t.relations@.len(),
            children@.len() == k,
            forall|j: int| 0 <= j < k ==> #[trigger] children@[j]@ == relation_symbol(map.text(), t@.relations[j]),
        decreases t.relations@.len() - k,
    {
        let r = &t.relations[k];
        let d = DocumentSymbol {
            name: r.identifier.name.clone(),
            kind: SymbolKind::Method,
            range: range_exec(map, r.span),
            selection_range: range_exec(map, r.identifier.span),
            children: Vec::new(),
        };
        assert(d@.children =~= Seq::<SymbolView>::empty());
        children.push(d);
        k = k + 1;
    }
    let r = DocumentSymbol {
        name: t.identifier.name.clone(),
        kind: SymbolKind::Class,
        range: range_exec(map, t.span),
        selection_range: range_exec(map, t.identifier.span),
        children,
    };
    assert forall|j: int| 0 <= j < r.children@.len() implies r@.children[j] == type_symbol(map.text(), t@).children[j] by {
        assert(r@.children[j] == symbol_view(r.children@[j]));
        assert(r.children@[j]@ == relation_symbol(map.text(), t@.relations[j]));
        assert(type_symbol(map.text(), t@).children[j] == relation_symbol(map.text(), t@.relations[j]));
    };
    assert(r@.children =~= type_symbol(map.text(), t@).children);
    r
}

/// The outline of the analysed model: one symbol per type, in order.
pub fn document_symbol(a: &Analysis) -> (r: Vec<DocumentSymbol>)
    requires
        a.map.wf(),
    ensures
        symbol_views(r@) == Seq::new(a.model@.types.len(), |i: int| type_symbol(a.map.text(), a.model@.types[i])),
{
    let mut out: Vec<DocumentSymbol> = Vec::new();
    let mut i: usize = 0;
    while i < a.model.types.len()
        invariant
            a.map.wf(),
            0 <= i <= a.model.types@.len(),
            out@.len() == i,
            forall|j: int| 0 <= j < i ==> #[trigger] out@[j]@ == type_symbol(a.map.text(), a.model@.types[j]),
        decreases a.model.types@.len() - i,
    {
        out.push(type_to_symbol(&a.map, &a.model.types[i]));
        i = i + 1;
    }
    assert(symbol_views(out@) =~= Seq::new(a.model@.types.len(), |i: int| type_symbol(a.map.text(), a.model@.types[i])));
    out
}

/// A problem to show in the editor.
#[derive(Debug, PartialEq, Eq)]
pub struct Diagnostic {
    pub range: TextRange,
    pub code: u64,
    pub message: String,
}

pub ghost struct DiagnosticView {
    pub range: TextRange,
    pub code: u64,
    pub message: Seq<char>,
}

pub open spec fn diagnostic_views(ds: Seq<Diagnostic>) -> Seq<DiagnosticView> {
    Seq::new(ds.len(), |i: int| DiagnosticView { range: ds[i].range, code: ds[i].code, message: ds[i].message@ })
}

/// The text of message parts put together.
pub open spec fn parts_text(ps: Seq<PartView>) -> Seq<char>
    decreases ps.len(),
{
    if ps.len() == 0 {
        Seq::empty()
    } else {
        parts_text(ps.drop_last()) + ps.last().text
    }
}

pub open spec fn lex_diagnostic(s: Seq<char>, e: LexError) -> DiagnosticView {
    DiagnosticView { range: range_of(s, Some(e.span)), code: 3, message: "Unexpected character"@ }
}

pub open spec fn parse_diagnostic(s: Seq<char>, e: ParseErrorView) -> DiagnosticView {
    DiagnosticView { range: range_of(s, Some(e.span)), code: 3, message: parts_text(parse_error_message(e)) }
}

pub open spec fn violation_diagnostic(s: Seq<char>, e: ModelErrorView) -> DiagnosticView {
    DiagnosticView { range: range_of(s, e.span()), code: e.code(), message: violation_message(e) }
}

/// The diagnostics of a text: its lexical errors if it has any, else its
/// syntax errors if it has any, else the violations of its model.
pub open spec fn document_diagnostics(s: Seq<char>) -> Seq<DiagnosticView> {
    let lexed = scan(s, 0);
    let parsed = p_file(lexed.0, 0);
    if lexed.1.len() > 0 {
        Seq::new(lexed.1.len(), |i: int| lex_diagnostic(s, lexed.1[i]))
    } else if parsed.1.len() > 0 {
        let es = errors_of(lexed.0, crate::parser::end_span(s), parsed.1);
        Seq::new(es.len(), |i: int| parse_diagnostic(s, es[i]))
    } else {
        let vs = violations(ModelView { types: parsed.0 });
        Seq::new(vs.len(), |i: int| violation_diagnostic(s, vs[i]))
    }
}

proof fn lemma_diagnostics_push(ds: Seq<Diagnostic>, d: Diagnostic)
    ensures
        diagnostic_views(ds.push(d)) == diagnostic_views(ds).push(
            DiagnosticView { range: d.range, code: d.code, message: d.message@ },
        ),
{
    assert(diagnostic_views(ds.push(d)) =~= diagnostic_views(ds).push(
        DiagnosticView { range: d.range, code: d.code, message: d.message@ },
    ));
}

fn plain_text(parts: &Vec<MessagePart>) -> (r: String)
    ensures
        r@ == parts_text(parts_view(parts@)),
{
    let mut m = String::new();
    let mut i: usize = 0;
    while i < parts.len()
        invariant
            0 <= i <= parts@.len(),
            m@ == parts_text(parts_view(parts@).take(i as int)),
        decreases parts@.len() - i,
    {
        proof {
            assert(parts_view(parts@).take(i + 1).drop_last() =~= parts_view(parts@).take(i as int));
        }
        m.append(parts[i].text.as_str());
        i = i + 1;
    }
    assert(parts_view(parts@).take(i as int) =~= parts_view(parts@));
    m
}

fn model_error_span(e: &ModelError) -> (r: Option<Span>)
    ensures
        r == e@.span(),
{
    match e {
        ModelError::DuplicateTypeName { type2, .. } => type2.identifier.span,
        ModelError::DuplicateRelationName { relation2, .. } => relation2.span,
        ModelError::UnknownRelation { relation_identifier, .. } => relation_identifier.span,
        ModelError::SelfReferencingRelation { relation_identifier, .. } => relation_identifier.span,
    }
}

/// The diagnostic of a violation: at its span, with its code and message.
pub fn map_model_error_to_diagnostic(map: &SourceMap, e: &ModelError) -> (r: Diagnostic)
    requires
        map.wf(),
    ensures
        (DiagnosticView { range: r.range, code: r.code, message: r.message@ }) == violation_diagnostic(map.text(), e@),
{
    Diagnostic { range: range_exec(map, model_error_span(e)), code: e.get_code(), message: e.message() }
}

/// What is known of a document: the last successful analysis, if any, and
/// the diagnostics of its latest text.
pub struct DocumentState {
    pub analysis: Option<Analysis>,
    pub diagnostics: Vec<Diagnostic>,
}

/// Analyses a text on its own. The diagnostics are those of the text; the
/// analysis is present exactly when the text lexes and parses.
pub fn analyze(text: &str) -> (r: DocumentState)
    ensures
        diagnostic_views(r.diagnostics@) == document_diagnostics(text@),
        (scan(text@, 0).1.len() > 0 || p_file(source_tokens(text@), 0).1.len() > 0) ==> r.analysis is None,
        (scan(text@, 0).1.len() == 0 && p_file(source_tokens(text@), 0).1.len() == 0) ==> (r.analysis matches Some(
            a,
        ) && a.map.text() == text@),
        r.analysis matches Some(a) ==> a.wf(),
{
    let map = SourceMap::new(text);
    let (tokens, lex_errors) = lexer(text);
    let ghost s = text@;
    let mut diagnostics: Vec<Diagnostic> = Vec::new();
    if lex_errors.len() > 0 {
        let mut i: usize = 0;
        while i < lex_errors.len()
            invariant
                map.wf(),
                map.text() == s,
                lex_errors@ == scan(s, 0).1,
                0 <= i <= lex_errors@.len(),
                diagnostic_views(diagnostics@) == Seq::new(i as nat, |k: int| lex_diagnostic(s, lex_errors@[k])),
            decreases lex_errors@.len() - i,
        {
            let d = Diagnostic {
                range: range_exec(&map, Some(lex_errors[i].span)),
                code: 3,
                message: String::from_str("Unexpected character"),
            };
            proof { lemma_diagnostics_push(diagnostics@, d); }
            diagnostics.push(d);
            assert(diagnostic_views(diagnostics@) =~= Seq::new((i + 1) as nat, |k: int| lex_diagnostic(s, lex_errors@[k])));
            i = i + 1;
        }
        return DocumentState { analysis: None, diagnostics };
    }
    let end = map.len_bytes();
    let (types, parse_errors) = better_parser(&tokens, Span { start: end, end: end });
    assert(token_views(tokens@) == source_tokens(s));
    if parse_errors.len() > 0 {
        let ghost es = errors_of(source_tokens(s), crate::parser::end_span(s), p_file(source_tokens(s), 0).1);
        assert(parse_error_views(parse_errors@).len() == parse_errors@.len());
        let mut i: usize = 0;
        while i < parse_errors.len()
            invariant
                map.wf(),
                map.text() == s,
                parse_error_views(parse_errors@) == es,
                0 <= i <= parse_errors@.len(),
                diagnostic_views(diagnostics@) == Seq::new(i as nat, |k: int| parse_diagnostic(s, es[k])),
            decreases parse_errors@.len() - i,
        {
            assert(es[i as int] == parse_errors@[i as int]@);
            let parts = get_simple_token_error_message(&parse_errors[i]);
            let d = Diagnostic {
                range: range_exec(&map, Some(parse_errors[i].span)),
                code: 3,
                message: plain_text(&parts),
            };
            proof { lemma_diagnostics_push(diagnostics@, d); }
            diagnostics.push(d);
            assert(diagnostic_views(diagnostics@) =~= Seq::new((i + 1) as nat, |k: int| parse_diagnostic(s, es[k])));
            i = i + 1;
        }
        return DocumentState { analysis: None, diagnostics };
    }
    let model = AuthorizationModel { types };
    match check_model(&model) {
        Ok(()) => {
            assert(diagnostic_views(diagnostics@) =~= document_diagnostics(s));
        },
        Err(errors) => {
            let ghost vs = violations(model@);
            let mut i: usize = 0;
            while i < errors.len()
                invariant
                    map.wf(),
                    map.text() == s,
                    error_views(errors@) == vs,
                    0 <= i <= errors@.len(),
                    diagnostic_views(diagnostics@) == Seq::new(i as nat, |k: int| violation_diagnostic(s, vs[k])),
                decreases errors@.len() - i,
            {
                assert(vs[i as int] == errors@[i as int]@);
                let d = map_model_error_to_diagnostic(&map, &errors[i]);
                proof { lemma_diagnostics_push(diagnostics@, d); }
                diagnostics.push(d);
                assert(diagnostic_views(diagnostics@) =~= Seq::new((i + 1) as nat, |k: int| violation_diagnostic(s, vs[k])));
                i = i + 1;
            }
            assert(model@ == ModelView { types: p_file(source_tokens(s), 0).0 });
            assert(diagnostic_views(diagnostics@) =~= document_diagnostics(s));
        },
    }
    DocumentState { analysis: Some(Analysis { map, tokens, model }), diagnostics }
}

/// The state after a change, from the fresh analysis of the new text: when
/// that text failed to parse, the previous analysis is kept.
pub fn retain(prev: Option<Analysis>, fresh: DocumentState) -> (r: DocumentState)
    ensures
        r.diagnostics == fresh.diagnostics,
        r.analysis == if fresh.analysis is Some {
            fresh.analysis
        } else {
            prev
        },
{
    match fresh.analysis {
        Some(a) => DocumentState { analysis: Some(a), diagnostics: fresh.diagnostics },
        None => DocumentState { analysis: prev, diagnostics: fresh.diagnostics },
    }
}

/// Analyses the new text of a document. The diagnostics are always those of
/// the new text; the analysis is replaced when the text lexes and parses,
/// and otherwise the previous one is kept.
pub fn on_change(prev: Option<Analysis>, text: &str) -> (r: DocumentState)
    requires
        prev matches Some(a) ==> a.wf(),
    ensures
        diagnostic_views(r.diagnostics@) == document_diagnostics(text@),
        (scan(text@, 0).1.len() > 0 || p_file(source_tokens(text@), 0).1.len() > 0) ==> r.analysis == prev,
        (scan(text@, 0).1.len() == 0 && p_file(source_tokens(text@), 0).1.len() == 0) ==> (r.analysis matches Some(
            a,
        ) && a.map.text() == text@),
        r.analysis matches Some(a) ==> a.wf(),
{
    retain(prev, analyze(text))
}

} // verus!
