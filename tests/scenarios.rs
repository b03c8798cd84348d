use openfga_dsl::checker::{check_model, ModelError};
use openfga_dsl::json::{AuthorizationModel as JsonModel, RelationData, Type as JsonType};
use openfga_dsl::model::{Access, AuthorizationModel, Identifier, Relation, Span, Type};
use openfga_dsl::parser::parse_model;

fn sp(start: usize, end: usize) -> Option<Span> {
    Some(Span { start, end })
}

fn parse_ok(src: &str) -> AuthorizationModel {
    match parse_model(src) {
        Ok(types) => AuthorizationModel { types },
        Err(e) => panic!("parse failed: {:?}", e),
    }
}

fn errors_of(m: &AuthorizationModel) -> Vec<ModelError> {
    match check_model(m) {
        Ok(()) => Vec::new(),
        Err(es) => es,
    }
}

#[test]
fn minimal_parse_check_and_json() {
    let src = "type document\n  relations\n    define viewer as self";
    let m = parse_ok(src);
    let expected = AuthorizationModel {
        types: vec![Type {
            identifier: Identifier { name: "document".to_string(), span: sp(5, 13) },
            relations: vec![Relation {
                identifier: Identifier { name: "viewer".to_string(), span: sp(37, 43) },
                access: Access::Direct { span: sp(47, 51) },
                span: sp(30, 51),
            }],
            span: sp(0, 51),
        }],
    };
    assert_eq!(m, expected);
    assert!(check_model(&m).is_ok());
    let json = JsonModel::from_model(&m);
    assert_eq!(
        json,
        JsonModel {
            type_definitions: vec![JsonType {
                name: "document".to_string(),
                relations: vec![("viewer".to_string(), RelationData::Direct)],
            }],
        }
    );
}

#[test]
fn precedence_of_operators() {
    let src = "type t\n relations\n  define x as a or b and c but not d";
    let m = parse_ok(src);
    let access = &m.types[0].relations[0].access;
    match access {
        Access::Union { children, .. } => {
            assert_eq!(children.len(), 2);
            match &children[0] {
                Access::SelfComputed { relation, .. } => assert_eq!(relation.name, "a"),
                other => panic!("unexpected {:?}", other),
            }
            match &children[1] {
                Access::Intersection { children: inner, .. } => {
                    assert_eq!(inner.len(), 2);
                    match &inner[0] {
                        Access::SelfComputed { relation, .. } => assert_eq!(relation.name, "b"),
                        other => panic!("unexpected {:?}", other),
                    }
                    match &inner[1] {
                        Access::Difference { base, subtract, .. } => {
                            assert!(matches!(&**base, Access::SelfComputed { relation, .. } if relation.name == "c"));
                            assert!(matches!(&**subtract, Access::SelfComputed { relation, .. } if relation.name == "d"));
                        },
                        other => panic!("unexpected {:?}", other),
                    }
                },
                other => panic!("unexpected {:?}", other),
            }
        },
        other => panic!("unexpected {:?}", other),
    }
}

#[test]
fn duplicate_type_reported_at_second_name() {
    let src = "type document\n relations\ntype document\n relations";
    let m = parse_ok(src);
    let errors = errors_of(&m);
    assert_eq!(errors.len(), 1);
    assert_eq!(errors[0].get_code(), 201);
    assert_eq!(errors[0].get_span(), Span { start: 30, end: 38 });
    assert_eq!(&src[30..38], "document");
}

#[test]
fn unknown_reference_reported_on_identifier() {
    let src = "type document\n relations\n  define viewer as editor";
    let m = parse_ok(src);
    let errors = errors_of(&m);
    assert_eq!(errors.len(), 1);
    assert_eq!(errors[0].get_code(), 203);
    let span = errors[0].get_span();
    assert_eq!(&src[span.start..span.end], "editor");
}

#[test]
fn self_reference_reported_once() {
    let src = "type document\n relations\n  define viewer as viewer";
    let m = parse_ok(src);
    let errors = errors_of(&m);
    assert_eq!(errors.len(), 1);
    assert_eq!(errors[0].get_code(), 204);
    let span = errors[0].get_span();
    assert_eq!(&src[span.start..span.end], "viewer");
    assert_eq!(span.start, 44);
}

#[test]
fn json_is_independent_of_relation_order() {
    let a = parse_ok("type doc\n relations\n  define viewer as self\n  define editor as self\n  define admin as editor");
    let b = parse_ok("type doc\n relations\n  define admin as editor\n  define editor as self\n  define viewer as self");
    let ja = JsonModel::from_model(&a);
    let jb = JsonModel::from_model(&b);
    assert_eq!(ja, jb);
    let keys: Vec<&str> = ja.type_definitions[0].relations.iter().map(|(k, _)| k.as_str()).collect();
    assert_eq!(keys, vec!["admin", "editor", "viewer"]);
}

#[test]
fn duplicates_reported_after_first_occurrence() {
    let src = "type a\n relations\ntype a\n relations\ntype b\n relations\ntype a\n relations";
    let m = parse_ok(src);
    let errors = errors_of(&m);
    let dups: Vec<&ModelError> = errors.iter().filter(|e| e.get_code() == 201).collect();
    assert_eq!(dups.len(), 2);
    match dups[1] {
        ModelError::DuplicateTypeName { type1, type2 } => {
            assert_eq!(type1.span, Some(Span { start: 18, end: 35 }));
            assert_eq!(type2.span, Some(Span { start: 54, end: 71 }));
        },
        other => panic!("unexpected {:?}", other),
    }
}

#[test]
fn self_reference_inside_composite_is_not_unknown() {
    let src = "type d\n relations\n  define viewer as self or (viewer and self)";
    let m = parse_ok(src);
    let errors = errors_of(&m);
    assert_eq!(errors.len(), 1);
    assert_eq!(errors[0].get_code(), 204);
}

#[test]
fn check_is_deterministic_and_in_source_order() {
    let src = "type d\n relations\n  define a as x\n  define b as b\n  define a as y\ntype d\n relations";
    let m = parse_ok(src);
    let first = errors_of(&m);
    let second = errors_of(&m);
    assert_eq!(first, second);
    let codes: Vec<u64> = first.iter().map(|e| e.get_code()).collect();
    assert_eq!(codes, vec![203, 204, 202, 203, 201]);
    let starts: Vec<usize> = first.iter().map(|e| e.get_span().start).collect();
    let mut sorted = starts.clone();
    sorted.sort();
    assert_eq!(starts, sorted);
}
