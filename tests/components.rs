use openfga_dsl::checker::{check_model, ModelError};
use openfga_dsl::editor::{
    analyze, document_symbol, on_change, retain, semantic_tokens, SemanticToken, SymbolKind,
};
use openfga_dsl::json::{AuthorizationModel as JsonModel, RelationData};
use openfga_dsl::lexer::{lexer, LexError, Token};
use openfga_dsl::model::{Access, AuthorizationModel, Span};
use openfga_dsl::parser::{better_parser, parse_model, ParseErrors, TokenKind};
use openfga_dsl::report::{
    build_model_error_report, build_simple_token_report, get_simple_token_error_message, MessagePart,
    ReportColor,
};
use openfga_dsl::source_map::SourceMap;
use openfga_dsl::text::{text_eq, text_less};

fn model(src: &str) -> AuthorizationModel {
    AuthorizationModel { types: parse_model(src).unwrap() }
}

fn joined(parts: &[MessagePart]) -> String {
    parts.iter().map(|p| p.text.as_str()).collect::<Vec<_>>().join("")
}

#[test]
fn lexer_tokens_and_gaps_rebuild_source() {
    let src = "type a // note\n  relations\n\tdefine r as (self)";
    let (tokens, errors) = lexer(src);
    assert!(errors.is_empty());
    let texts: Vec<String> = tokens.iter().map(|(t, _)| t.to_text()).collect();
    assert_eq!(texts, vec!["type", "a", "relations", "define", "r", "as", "(", "self", ")"]);
    let mut rebuilt = String::new();
    let mut at = 0;
    for (t, span) in &tokens {
        let gap = &src[at..span.start];
        let without_comments: String = gap
            .split('\n')
            .map(|line| match line.find("//") {
                Some(i) => &line[..i],
                None => line,
            })
            .collect::<Vec<_>>()
            .join("\n");
        assert!(without_comments.chars().all(char::is_whitespace));
        assert_eq!(&src[span.start..span.end], t.to_text());
        rebuilt.push_str(gap);
        rebuilt.push_str(&src[span.start..span.end]);
        at = span.end;
    }
    rebuilt.push_str(&src[at..]);
    assert_eq!(rebuilt, src);
}

#[test]
fn lexer_keywords_are_whole_words() {
    let (tokens, errors) = lexer("types typed self_ as");
    assert!(errors.is_empty());
    let kinds: Vec<Token> = tokens.into_iter().map(|(t, _)| t).collect();
    assert_eq!(
        kinds,
        vec![
            Token::Identifier("types".to_string()),
            Token::Identifier("typed".to_string()),
            Token::Identifier("self_".to_string()),
            Token::As,
        ]
    );
}

#[test]
fn lexer_spans_are_bytes_across_multibyte_text() {
    let src = "// héllo wörld\ntype doc";
    let (tokens, errors) = lexer(src);
    assert!(errors.is_empty());
    assert_eq!(tokens[0], (Token::Type, Span { start: 17, end: 21 }));
    assert_eq!(tokens[1], (Token::Identifier("doc".to_string()), Span { start: 22, end: 25 }));
    assert_eq!(&src[22..25], "doc");
}

#[test]
fn lexer_recovers_past_unknown_characters() {
    let (tokens, errors) = lexer("type é$ doc");
    assert_eq!(errors, vec![LexError { span: Span { start: 5, end: 7 } }, LexError { span: Span { start: 7, end: 8 } }]);
    assert_eq!(tokens.len(), 2);
    assert_eq!(tokens[1].1, Span { start: 9, end: 12 });
    assert!(matches!(parse_model("type é$ doc"), Err(ParseErrors::Lexer(es)) if es.len() == 2));
}

#[test]
fn lexer_accepts_comment_at_end_without_newline() {
    let (tokens, errors) = lexer("type a\n relations // end");
    assert!(errors.is_empty());
    assert_eq!(tokens.len(), 3);
    assert_eq!(parse_model("// only a comment").unwrap().len(), 0);
    assert_eq!(parse_model("").unwrap().len(), 0);
    assert_eq!(parse_model("   \n\t ").unwrap().len(), 0);
}

#[test]
fn computed_access_reads_relation_from_object() {
    let m = model("type doc\n relations\n  define parent as self\n  define viewer as viewer from parent");
    match &m.types[0].relations[1].access {
        Access::Computed { object, relation, span } => {
            assert_eq!(object.name, "parent");
            assert_eq!(relation.name, "viewer");
            assert_eq!(span.unwrap().end, object.span.unwrap().end);
            assert_eq!(span.unwrap().start, relation.span.unwrap().start);
        },
        other => panic!("unexpected {:?}", other),
    }
}

#[test]
fn parsed_spans_nest() {
    let src = "type t\n relations\n  define x as (a or b) and c but not d";
    let m = model(src);
    let r = &m.types[0].relations[0];
    let outer = r.span.unwrap();
    match &r.access {
        Access::Intersection { children, span } => {
            let s = span.unwrap();
            assert_eq!(&src[s.start..s.end], "(a or b) and c but not d");
            assert!(outer.start <= s.start && s.end <= outer.end);
            let inner = match &children[0] {
                Access::Union { span, .. } => span.unwrap(),
                other => panic!("unexpected {:?}", other),
            };
            assert_eq!(&src[inner.start..inner.end], "a or b");
            let diff = match &children[1] {
                Access::Difference { span, .. } => span.unwrap(),
                other => panic!("unexpected {:?}", other),
            };
            assert_eq!(&src[diff.start..diff.end], "c but not d");
        },
        other => panic!("unexpected {:?}", other),
    }
}

#[test]
fn chained_difference_is_a_syntax_error() {
    match parse_model("type t\n relations\n  define x as a but not b but not c") {
        Err(ParseErrors::Parser(es)) => {
            assert_eq!(es.len(), 1);
            assert_eq!(es[0].found, Some(Token::But));
            assert_eq!(es[0].expected, vec![TokenKind::Type]);
        },
        other => panic!("unexpected {:?}", other),
    }
}

#[test]
fn unclosed_parenthesis_is_reported() {
    let src = "type t\n relations\n  define x as (a or b";
    match parse_model(src) {
        Err(ParseErrors::Parser(es)) => {
            assert_eq!(es.len(), 1);
            assert_eq!(es[0].found, None);
            assert_eq!(es[0].span, Span { start: src.len(), end: src.len() });
            assert_eq!(es[0].expected, vec![TokenKind::CloseParenthesis]);
            assert_eq!(es[0].unclosed, Some(Span { start: 32, end: 33 }));
            let report = build_simple_token_report(&es[0]);
            assert_eq!(report.code, 3);
            assert_eq!(report.labels.len(), 2);
            assert_eq!(joined(&report.labels[1].message), "Unclosed delimiter (");
            assert_eq!(report.labels[1].color, ReportColor::Yellow);
        },
        other => panic!("unexpected {:?}", other),
    }
}

#[test]
fn parser_reports_every_failing_block() {
    let src = "type a\n relations\n  define x as\ntype relations\ntype c\n relations\n  define y as self";
    let (tokens, _) = lexer(src);
    let (types, errors) = better_parser(&tokens, Span { start: src.len(), end: src.len() });
    assert_eq!(errors.len(), 2);
    assert_eq!(errors[0].expected, vec![TokenKind::SelfRef, TokenKind::OpenParenthesis, TokenKind::Identifier]);
    assert_eq!(errors[1].expected, vec![TokenKind::Identifier]);
    assert_eq!(types.len(), 1);
    assert_eq!(types[0].identifier.name, "c");
    let message = joined(&get_simple_token_error_message(&errors[1]));
    assert_eq!(message, "Found unexpected token relations, expected instead identifier");
    let first = joined(&get_simple_token_error_message(&errors[0]));
    assert_eq!(first, "Found unexpected token type, expected instead self, (, identifier");
}

#[test]
fn missing_relations_keyword_is_reported() {
    match parse_model("type a define") {
        Err(ParseErrors::Parser(es)) => {
            assert_eq!(es[0].expected, vec![TokenKind::Relations]);
            assert_eq!(es[0].span, Span { start: 7, end: 13 });
        },
        other => panic!("unexpected {:?}", other),
    }
}

#[test]
fn round_trip_through_json_form() {
    let m = model("type doc\n relations\n  define viewer as editor or owner\n  define editor as self but not banned\n  define owner as self and viewer from parent\n  define banned as self\n  define parent as self");
    assert!(check_model(&m).is_ok());
    let back = JsonModel::from_model(&m).to_model();
    assert_eq!(back.types.len(), 1);
    assert_eq!(back.types[0].identifier.name, "doc");
    assert_eq!(back.types[0].span, None);
    let names: Vec<&str> = back.types[0].relations.iter().map(|r| r.identifier.name.as_str()).collect();
    assert_eq!(names, vec!["banned", "editor", "owner", "parent", "viewer"]);
    match &back.types[0].relations[4].access {
        Access::Union { children, span } => {
            assert_eq!(*span, None);
            assert!(matches!(&children[0], Access::SelfComputed { relation, span: None } if relation.name == "editor" && relation.span.is_none()));
        },
        other => panic!("unexpected {:?}", other),
    }
    match &back.types[0].relations[2].access {
        Access::Intersection { children, .. } => {
            assert!(matches!(&children[1], Access::Computed { object, relation, .. } if object.name == "parent" && relation.name == "viewer"));
        },
        other => panic!("unexpected {:?}", other),
    }
}

#[test]
fn projection_shapes() {
    let m = model("type doc\n relations\n  define a as self\n  define b as a from c but not a\n  define c as a and b");
    let j = JsonModel::from_model(&m);
    let rels = &j.type_definitions[0].relations;
    assert_eq!(rels[0], ("a".to_string(), RelationData::Direct));
    match &rels[1].1 {
        RelationData::Difference { base, subtract } => {
            match &**base {
                RelationData::TupleToUserset { tuple_to_userset } => {
                    assert_eq!(tuple_to_userset.tupleset.object, "");
                    assert_eq!(tuple_to_userset.tupleset.relation, "c");
                    assert_eq!(tuple_to_userset.computed_userset.relation, "a");
                },
                other => panic!("unexpected {:?}", other),
            }
            match &**subtract {
                RelationData::ComputedUserset { computed_userset } => {
                    assert_eq!(computed_userset.object, "");
                    assert_eq!(computed_userset.relation, "a");
                },
                other => panic!("unexpected {:?}", other),
            }
        },
        other => panic!("unexpected {:?}", other),
    }
    match &rels[2].1 {
        RelationData::Intersection { intersection } => assert_eq!(intersection.child.len(), 2),
        other => panic!("unexpected {:?}", other),
    }
}

#[test]
fn later_duplicate_relation_wins_in_json() {
    let m = model("type doc\n relations\n  define a as self\n  define a as b\n  define b as self");
    let j = JsonModel::from_model(&m);
    assert_eq!(j.type_definitions[0].relations.len(), 2);
    assert!(matches!(&j.type_definitions[0].relations[0].1, RelationData::ComputedUserset { .. }));
}

#[test]
fn text_order_and_equality() {
    assert!(text_less("admin", "editor"));
    assert!(text_less("a", "ab"));
    assert!(!text_less("b", "ab"));
    assert!(!text_less("a", "a"));
    assert!(text_less("Z", "a"));
    assert!(text_eq("héllo", "héllo"));
    assert!(!text_eq("hello", "hellö"));
}

#[test]
fn lookups_on_model() {
    let m = model("type doc\n relations\n  define viewer as self\ntype folder\n relations");
    assert!(m.type_exists("folder"));
    assert!(!m.type_exists("user"));
    assert!(m.types[0].relation_exists("viewer"));
    assert!(!m.types[0].relation_exists("editor"));
    assert!(m.type_relation_exists("doc", "viewer"));
    assert!(!m.type_relation_exists("folder", "viewer"));
}

#[test]
fn source_map_positions_count_characters() {
    let src = "ab\nçd é\n\nx";
    let map = SourceMap::new(src);
    assert_eq!(map.offset_to_lc(0), (0, 0));
    assert_eq!(map.offset_to_lc(2), (0, 2));
    assert_eq!(map.offset_to_lc(3), (1, 0));
    assert_eq!(map.offset_to_lc(5), (1, 1));
    assert_eq!(map.offset_to_lc(7), (1, 3));
    assert_eq!(map.offset_to_lc(10), (2, 0));
    assert_eq!(map.offset_to_lc(11), (3, 0));
    assert_eq!(map.offset_to_lc(12), (3, 1));
    assert_eq!(map.len_bytes(), 12);
    assert_eq!(map.char_index(7), 6);
    assert_eq!(map.span_to_range(Span { start: 5, end: 12 }), ((1, 1), (3, 1)));
}

#[test]
fn reports_of_violations() {
    let src = "type d\n relations\n  define a as self\n  define a as b\n  define b as b\ntype d\n relations";
    let m = model(src);
    let errors = match check_model(&m) {
        Err(es) => es,
        Ok(()) => panic!("expected violations"),
    };
    let codes: Vec<u64> = errors.iter().map(|e| e.get_code()).collect();
    assert_eq!(codes, vec![202, 204, 201]);
    let r = build_model_error_report(&errors[0]);
    assert_eq!(r.code, 202);
    assert_eq!(joined(&r.message), "Relation a got defined twice on type d");
    assert_eq!(r.message[1].color, Some(ReportColor::Blue));
    assert_eq!(r.labels.len(), 3);
    assert_eq!(joined(&r.labels[1].message), "and again here");
    assert_eq!(r.note.as_deref(), Some("The names of relations must be unique inside a single type"));
    assert_eq!(errors[0].message(), "Relation a got defined twice on type d");
    let r = build_model_error_report(&errors[1]);
    assert_eq!(joined(&r.message), "Relation definition b on type d references itself");
    assert_eq!(errors[1].message(), "Relation definition b on type d references itself");
    let r = build_model_error_report(&errors[2]);
    assert_eq!(joined(&r.message), "Type with name d got defined twice");
    assert_eq!(r.offset, 0);
    assert_eq!(joined(&r.labels[0].message), "Type with name d first was defined here");
    assert_eq!(errors[2].message(), "Type with name d was defined twice");
}

#[test]
fn report_of_unknown_relation() {
    let m = model("type d\n relations\n  define a as zz");
    let errors = check_model(&m).unwrap_err();
    assert!(matches!(&errors[0], ModelError::UnknownRelation { .. }));
    let r = build_model_error_report(&errors[0]);
    assert_eq!(r.code, 203);
    assert_eq!(joined(&r.message), "Relation definition a on type d references relation zz, which does not exist");
    assert_eq!(joined(&r.labels[0].message), "Relation zz mentioned here does not exist on type d");
    assert_eq!(r.labels[0].span, Span { start: 32, end: 34 });
}

#[test]
fn semantic_tokens_are_delta_encoded() {
    let src = "type doc\n relations\n  define v as (self or w)\n  define w as self";
    let state = on_change(None, src);
    let analysis = state.analysis.unwrap();
    let tokens = semantic_tokens(&analysis);
    let t = |dl, ds, len, ty| SemanticToken { delta_line: dl, delta_start: ds, length: len, token_type: ty };
    assert_eq!(
        tokens,
        vec![
            t(0, 0, 4, 0),
            t(0, 5, 3, 2),
            t(1, 1, 9, 0),
            t(1, 2, 6, 0),
            t(0, 7, 1, 2),
            t(0, 2, 2, 0),
            t(0, 4, 4, 3),
            t(0, 5, 2, 1),
            t(0, 3, 1, 2),
            t(1, 2, 6, 0),
            t(0, 7, 1, 2),
            t(0, 2, 2, 0),
            t(0, 3, 4, 3),
        ]
    );
}

#[test]
fn document_symbols_outline_types_and_relations() {
    let src = "type doc\n relations\n  define viewer as self";
    let state = on_change(None, src);
    let symbols = document_symbol(state.analysis.as_ref().unwrap());
    assert_eq!(symbols.len(), 1);
    assert_eq!(symbols[0].name, "doc");
    assert_eq!(symbols[0].kind, SymbolKind::Class);
    assert_eq!(symbols[0].selection_range.start.character, 5);
    assert_eq!(symbols[0].range.end.line, 2);
    assert_eq!(symbols[0].children.len(), 1);
    assert_eq!(symbols[0].children[0].kind, SymbolKind::Method);
    assert_eq!(symbols[0].children[0].range.start.line, 2);
    assert_eq!(symbols[0].children[0].range.start.character, 2);
    assert_eq!(symbols[0].children[0].selection_range.start.character, 9);
    assert_eq!(symbols[0].children[0].range.end.character, 23);
}

#[test]
fn failed_parse_keeps_previous_analysis() {
    let good = on_change(None, "type doc\n relations\n  define viewer as editor");
    assert_eq!(good.diagnostics.len(), 1);
    assert_eq!(good.diagnostics[0].code, 203);
    assert_eq!(good.diagnostics[0].range.start.line, 2);
    assert_eq!(good.diagnostics[0].range.start.character, 19);
    let bad = on_change(good.analysis, "type doc\n relations\n  define viewer as (");
    assert_eq!(bad.diagnostics.len(), 1);
    assert_eq!(bad.diagnostics[0].code, 3);
    assert_eq!(bad.diagnostics[0].message, "Found unexpected end of input, expected instead self, (, identifier");
    let kept = bad.analysis.unwrap();
    assert_eq!(kept.model.types[0].identifier.name, "doc");
    let fresh = on_change(None, "type doc relations $");
    assert!(fresh.analysis.is_none());
    assert_eq!(fresh.diagnostics.len(), 1);
    assert_eq!(fresh.diagnostics[0].message, "Unexpected character");
}

#[test]
fn fresh_analysis_and_retention() {
    let fresh = analyze("type doc relations (");
    assert!(fresh.analysis.is_none());
    assert_eq!(fresh.diagnostics.len(), 1);
    assert_eq!(fresh.diagnostics[0].message, "Found unexpected token (, expected instead type");
    assert_eq!(fresh.diagnostics[0].range.start.character, 19);
    let prev = analyze("type doc\n relations").analysis;
    assert!(prev.is_some());
    let kept = retain(prev, fresh);
    assert_eq!(kept.analysis.unwrap().model.types[0].identifier.name, "doc");
    assert_eq!(kept.diagnostics.len(), 1);
    let replaced = retain(None, analyze("type a\n relations"));
    assert_eq!(replaced.analysis.unwrap().model.types[0].identifier.name, "a");
    assert!(replaced.diagnostics.is_empty());
}
