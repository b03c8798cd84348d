//! Semantic checks of an authorization model: unique type names, unique
//! relation names within a type, and references to relations of the same type.

use vstd::prelude::*;
use crate::model::{
    access_views, lemma_children_view, Access, AccessView, Identifier, IdentifierView, ModelView,
    AuthorizationModel, Relation, RelationView, Span, Type, TypeView, type_views,
};
use crate::parser::{access_ordered, access_spanned, inside, precedes, relation_spanned, type_spanned};
use crate::text::text_eq;

verus! {

broadcast use vstd::seq_lib::group_seq_properties;

/// A semantic violation, with the nodes that a report labels.
#[derive(Debug, PartialEq, Eq)]
pub enum ModelError {
    DuplicateTypeName { type1: Type, type2: Type },
    DuplicateRelationName { relation1: Relation, relation2: Relation, target_type: Type },
    UnknownRelation {
        relation_identifier: Identifier,
        access: Access,
        relation: Relation,
        target_type: Type,
    },
    SelfReferencingRelation {
        relation_identifier: Identifier,
        access: Access,
        relation: Relation,
        target_type: Type,
    },
}

pub ghost enum ModelErrorView {
    DuplicateTypeName { type1: TypeView, type2: TypeView },
    DuplicateRelationName { relation1: RelationView, relation2: RelationView, target_type: TypeView },
    UnknownRelation {
        relation_identifier: IdentifierView,
        access: AccessView,
        relation: RelationView,
        target_type: TypeView,
    },
    SelfReferencingRelation {
        relation_identifier: IdentifierView,
        access: AccessView,
        relation: RelationView,
        target_type: TypeView,
    },
}

impl View for ModelError {
    type V = ModelErrorView;

    open spec fn view(&self) -> ModelErrorView {
        match self {
            ModelError::DuplicateTypeName { type1, type2 } => ModelErrorView::DuplicateTypeName {
                type1: type1@,
                type2: type2@,
            },
            ModelError::DuplicateRelationName { relation1, relation2, target_type } =>
                ModelErrorView::DuplicateRelationName {
                relation1: relation1@,
                relation2: relation2@,
                target_type: target_type@,
            },
            ModelError::UnknownRelation { relation_identifier, access, relation, target_type } =>
                ModelErrorView::UnknownRelation {
                relation_identifier: relation_identifier@,
                access: access@,
                relation: relation@,
                target_type: target_type@,
            },
            ModelError::SelfReferencingRelation {
                relation_identifier,
                access,
                relation,
                target_type,
            } => ModelErrorView::SelfReferencingRelation {
                relation_identifier: relation_identifier@,
                access: access@,
                relation: relation@,
                target_type: target_type@,
            },
        }
    }
}

pub open spec fn error_views(es: Seq<ModelError>) -> Seq<ModelErrorView> {
    Seq::new(es.len(), |i: int| es[i]@)
}

impl ModelErrorView {
    /// The stable numeric code of the violation.
    pub open spec fn code(self) -> u64 {
        match self {
            ModelErrorView::DuplicateTypeName { .. } => 201,
            ModelErrorView::DuplicateRelationName { .. } => 202,
            ModelErrorView::UnknownRelation { .. } => 203,
            ModelErrorView::SelfReferencingRelation { .. } => 204,
        }
    }

    /// The span of the offending node: the second type's name, the second
    /// relation, or the identifier that references a relation.
    pub open spec fn span(self) -> Option<Span> {
        match self {
            ModelErrorView::DuplicateTypeName { type2, .. } => type2.identifier.span,
            ModelErrorView::DuplicateRelationName { relation2, .. } => relation2.span,
            ModelErrorView::UnknownRelation { relation_identifier, .. } => relation_identifier.span,
            ModelErrorView::SelfReferencingRelation { relation_identifier, .. } =>
                relation_identifier.span,
        }
    }
}

/// The violations found in access `a` of relation `r` on type `t`, depth
/// first and left to right.
pub open spec fn access_violations(a: AccessView, r: RelationView, t: TypeView) -> Seq<ModelErrorView>
    decreases a,
{
    match a {
        AccessView::Difference { base, subtract, .. } => access_violations(*base, r, t)
            + access_violations(*subtract, r, t),
        AccessView::Union { children, .. } => children_violations(children, r, t).flatten(),
        AccessView::Intersection { children, .. } => children_violations(children, r, t).flatten(),
        AccessView::SelfComputed { relation, .. } => if relation.name == r.identifier.name {
            seq![
                ModelErrorView::SelfReferencingRelation {
                    relation_identifier: relation,
                    access: a,
                    relation: r,
                    target_type: t,
                },
            ]
        } else if !t.has_relation(relation.name) {
            seq![
                ModelErrorView::UnknownRelation {
                    relation_identifier: relation,
                    access: a,
                    relation: r,
                    target_type: t,
                },
            ]
        } else {
            Seq::empty()
        },
        _ => Seq::empty(),
    }
}

/// The children's violations, as `access_violations` lists them for a
/// composite access.
pub open spec fn children_violations(cs: Seq<AccessView>, r: RelationView, t: TypeView) -> Seq<Seq<ModelErrorView>>
    decreases cs,
{
    Seq::new(
        cs.len(),
        |i: int|
            if 0 <= i < cs.len() {
                access_violations(cs[i], r, t)
            } else {
                Seq::empty()
            },
    )
}

/// The index of the last entry of `names` before index `i` that equals `n`,
/// or -1 when there is none.
pub open spec fn last_before(names: Seq<Seq<char>>, i: int, n: Seq<char>) -> int
    decreases i,
{
    if i <= 0 {
        -1
    } else if names[i - 1] == n {
        i - 1
    } else {
        last_before(names, i - 1, n)
    }
}

pub proof fn lemma_last_before_range(names: Seq<Seq<char>>, i: int, n: Seq<char>)
    requires
        0 <= i <= names.len(),
    ensures
        -1 <= last_before(names, i, n) < i,
        last_before(names, i, n) >= 0 ==> names[last_before(names, i, n)] == n,
        last_before(names, i, n) == -1 ==> forall|j: int| 0 <= j < i ==> names[j] != n,
    decreases i,
{
    if i > 0 {
        lemma_last_before_range(names, i - 1, n);
    }
}

pub open spec fn type_names(ts: Seq<TypeView>) -> Seq<Seq<char>> {
    Seq::new(ts.len(), |i: int| ts[i].identifier.name)
}

pub open spec fn relation_names(rs: Seq<RelationView>) -> Seq<Seq<char>> {
    Seq::new(rs.len(), |i: int| rs[i].identifier.name)
}

/// The violations of relation `k` of type `t`: a duplicate of an earlier
/// relation's name, then those of its access.
pub open spec fn relation_violations(t: TypeView, k: int) -> Seq<ModelErrorView> {
    let r = t.relations[k];
    let j = last_before(relation_names(t.relations), k, r.identifier.name);
    (if j >= 0 {
        seq![
            ModelErrorView::DuplicateRelationName {
                relation1: t.relations[j],
                relation2: r,
                target_type: t,
            },
        ]
    } else {
        Seq::empty()
    }) + access_violations(r.access, r, t)
}

pub open spec fn relations_violations(t: TypeView, n: int) -> Seq<ModelErrorView> {
    Seq::new(n as nat, |k: int| relation_violations(t, k)).flatten()
}

/// The violations of type `i` of `ts`: a duplicate of an earlier type's name,
/// then those of its relations in order.
pub open spec fn type_violations(ts: Seq<TypeView>, i: int) -> Seq<ModelErrorView> {
    let t = ts[i];
    let j = last_before(type_names(ts), i, t.identifier.name);
    (if j >= 0 {
        seq![ModelErrorView::DuplicateTypeName { type1: ts[j], type2: t }]
    } else {
        Seq::empty()
    }) + relations_violations(t, t.relations.len() as int)
}

pub open spec fn types_violations(ts: Seq<TypeView>, n: int) -> Seq<ModelErrorView> {
    Seq::new(n as nat, |i: int| type_violations(ts, i)).flatten()
}

/// Every violation of the model, in the order of a left-to-right,
/// depth-first walk.
pub open spec fn violations(m: ModelView) -> Seq<ModelErrorView> {
    types_violations(m.types, m.types.len() as int)
}

proof fn lemma_types_step(ts: Seq<TypeView>, n: int)
    requires
        0 <= n,
    ensures
        types_violations(ts, n + 1) == types_violations(ts, n) + type_violations(ts, n),
{
    let s = Seq::new((n + 1) as nat, |i: int| type_violations(ts, i));
    let p = Seq::new(n as nat, |i: int| type_violations(ts, i));
    assert(s =~= p.push(type_violations(ts, n)));
    p.lemma_flatten_push(type_violations(ts, n));
}

proof fn lemma_relations_step(t: TypeView, n: int)
    requires
        0 <= n,
    ensures
        relations_violations(t, n + 1) == relations_violations(t, n) + relation_violations(t, n),
{
    let s = Seq::new((n + 1) as nat, |k: int| relation_violations(t, k));
    let p = Seq::new(n as nat, |k: int| relation_violations(t, k));
    assert(s =~= p.push(relation_violations(t, n)));
    p.lemma_flatten_push(relation_violations(t, n));
}

proof fn lemma_error_views_push(es: Seq<ModelError>, e: ModelError)
    ensures
        error_views(es.push(e)) == error_views(es).push(e@),
{
    assert(error_views(es.push(e)) =~= error_views(es).push(e@));
}

fn check_children(children: &Vec<Access>, relation: &Relation, rtype: &Type, errors: &mut Vec<ModelError>)
    ensures
        error_views(final(errors)@) == error_views(old(errors)@) + children_violations(
            access_views(children@),
            relation@,
            rtype@,
        ).flatten(),
    decreases children@, 0nat,
{
    let ghost cv = access_views(children@);
    let ghost full = children_violations(cv, relation@, rtype@);
    let ghost start = error_views(errors@);
    let mut i: usize = 0;
    assert(full.take(0).flatten() =~= Seq::<ModelErrorView>::empty());
    assert(start + full.take(0).flatten() =~= start);
    while i < children.len()
        invariant
            0 <= i <= children@.len(),
            cv == access_views(children@),
            full == children_violations(cv, relation@, rtype@),
            error_views(errors@) == start + full.take(i as int).flatten(),
        decreases children@.len() - i,
    {
        assert(decreases_to!(children@ => children@[i as int]));
        check_access(&children[i], relation, rtype, errors);
        proof {
            assert(full.take(i + 1) =~= full.take(i as int).push(full[i as int]));
            full.take(i as int).lemma_flatten_push(full[i as int]);
        }
        i = i + 1;
    }
    assert(full.take(i as int) =~= full);
}

fn check_access(access: &Access, relation: &Relation, rtype: &Type, errors: &mut Vec<ModelError>)
    ensures
        error_views(final(errors)@) == error_views(old(errors)@) + access_violations(
            access@,
            relation@,
            rtype@,
        ),
    decreases access, 1nat,
{
    proof {
        lemma_children_view(access);
    }
    match access {
        Access::Difference { base, subtract, .. } => {
            let ghost start = error_views(errors@);
            check_access(base, relation, rtype, errors);
            check_access(subtract, relation, rtype, errors);
            assert(access@->Difference_base == Box::new(base@));
            assert(access_violations(access@, relation@, rtype@) == access_violations(base@, relation@, rtype@) + access_violations(subtract@, relation@, rtype@));
            assert(error_views(errors@) =~= start + access_violations(access@, relation@, rtype@));
        },
        Access::Intersection { children, .. } => {
            check_children(children, relation, rtype, errors);
            assert(error_views(errors@) == error_views(old(errors)@) + access_violations(access@, relation@, rtype@));
        },
        Access::Union { children, .. } => {
            check_children(children, relation, rtype, errors);
            assert(error_views(errors@) == error_views(old(errors)@) + access_violations(access@, relation@, rtype@));
        },
        Access::SelfComputed { relation: relation_identifier, .. } => {
            if text_eq(relation_identifier.name.as_str(), relation.identifier.name.as_str()) {
                let e = ModelError::SelfReferencingRelation {
                    relation_identifier: relation_identifier.clone(),
                    access: access.clone(),
                    relation: relation.clone(),
                    target_type: rtype.clone(),
                };
                proof { lemma_error_views_push(errors@, e); }
                errors.push(e);
                assert(error_views(errors@) == error_views(old(errors)@) + access_violations(access@, relation@, rtype@));
            } else if !rtype.relation_exists(relation_identifier.name.as_str()) {
                let e = ModelError::UnknownRelation {
                    relation_identifier: relation_identifier.clone(),
                    access: access.clone(),
                    relation: relation.clone(),
                    target_type: rtype.clone(),
                };
                proof { lemma_error_views_push(errors@, e); }
                errors.push(e);
            } else {
                assert(error_views(errors@) =~= error_views(errors@) + Seq::<ModelErrorView>::empty());
            }
        },
        _ => {
            assert(error_views(errors@) =~= error_views(errors@) + Seq::<ModelErrorView>::empty());
        },
    }
}

/// The index of the last type before index `i` named like type `i`.
fn last_type_before(ts: &Vec<Type>, i: usize) -> (r: Option<usize>)
    requires
        i < ts@.len(),
    ensures
        last_before(type_names(type_views(ts@)), i as int, ts@[i as int]@.identifier.name) == match r {
            Some(j) => j as int,
            None => -1,
        },
        r matches Some(j) ==> j < i,
{
    proof {
        lemma_last_before_range(type_names(type_views(ts@)), i as int, ts@[i as int]@.identifier.name);
    }
    let ghost names = type_names(type_views(ts@));
    let ghost n = ts@[i as int]@.identifier.name;
    let mut j: usize = i;
    while j > 0
        invariant
            j <= i < ts@.len(),
            names == type_names(type_views(ts@)),
            n == ts@[i as int]@.identifier.name,
            last_before(names, i as int, n) == last_before(names, j as int, n),
        decreases j,
    {
        if text_eq(ts[j - 1].identifier.name.as_str(), ts[i].identifier.name.as_str()) {
            assert(names[j - 1] == n);
            return Some(j - 1);
        }
        j = j - 1;
    }
    None
}

/// The index of the last relation of `t` before index `k` named like relation `k`.
fn last_relation_before(t: &Type, k: usize) -> (r: Option<usize>)
    requires
        k < t.relations@.len(),
    ensures
        last_before(relation_names(t@.relations), k as int, t@.relations[k as int].identifier.name)
            == match r {
            Some(j) => j as int,
            None => -1,
        },
        r matches Some(j) ==> j < k,
{
    proof {
        lemma_last_before_range(relation_names(t@.relations), k as int, t@.relations[k as int].identifier.name);
    }
    let ghost names = relation_names(t@.relations);
    let ghost n = t@.relations[k as int].identifier.name;
    let mut j: usize = k;
    while j > 0
        invariant
            j <= k < t.relations@.len(),
            names == relation_names(t@.relations),
            n == t@.relations[k as int].identifier.name,
            last_before(names, k as int, n) == last_before(names, j as int, n),
        decreases j,
    {
        if text_eq(
            t.relations[j - 1].identifier.name.as_str(),
            t.relations[k].identifier.name.as_str(),
        ) {
            assert(names[j - 1] == n);
            return Some(j - 1);
        }
        j = j - 1;
    }
    None
}

/// Checks every type and relation of `model`, collecting all violations.
pub fn check_model(model: &AuthorizationModel) -> (r: Result<(), Vec<ModelError>>)
    ensures
        match r {
            Ok(()) => violations(model@).len() == 0,
            Err(es) => es@.len() > 0 && error_views(es@) == violations(model@),
        },
{
    let mut errors: Vec<ModelError> = Vec::new();
    let ghost ts = model@.types;
    let mut i: usize = 0;
    assert(error_views(errors@) =~= types_violations(ts, 0));
    while i < model.types.len()
        invariant
            0 <= i <= model.types@.len(),
            ts == model@.types,
            error_views(errors@) == types_violations(ts, i as int),
        decreases model.types@.len() - i,
    {
        let t = &model.types[i];
        assert(ts[i as int] == t@);
        let ghost before = error_views(errors@);
        let ghost dup: Seq<ModelErrorView> = Seq::empty();
        match last_type_before(&model.types, i) {
            Some(j) => {
                let e = ModelError::DuplicateTypeName {
                    type1: model.types[j].clone(),
                    type2: t.clone(),
                };
                proof {
                    lemma_error_views_push(errors@, e);
                    dup = seq![e@];
                }
                errors.push(e);
            },
            None => {
                assert(error_views(errors@) =~= before + dup);
            },
        }
        let mut k: usize = 0;
        assert(relations_violations(t@, 0) =~= Seq::<ModelErrorView>::empty());
        assert(error_views(errors@) =~= before + dup + relations_violations(t@, 0));
        while k < t.relations.len()
            invariant
                0 <= k <= t.relations@.len(),
                t == &model.types@[i as int],
                ts == model@.types,
                i < model.types@.len(),
                error_views(errors@) == before + dup + relations_violations(t@, k as int),
            decreases t.relations@.len() - k,
        {
            let r = &t.relations[k];
            assert(t@.relations[k as int] == r@);
            let ghost mid = error_views(errors@);
            match last_relation_before(t, k) {
                Some(j) => {
                    let e = ModelError::DuplicateRelationName {
                        relation1: t.relations[j].clone(),
                        relation2: r.clone(),
                        target_type: t.clone(),
                    };
                    proof { lemma_error_views_push(errors@, e); }
                    errors.push(e);
                },
                None => {},
            }
            check_access(&r.access, r, t, &mut errors);
            proof {
                lemma_relations_step(t@, k as int);
                assert(error_views(errors@) =~= mid + relation_violations(t@, k as int));
            }
            k = k + 1;
        }
        proof {
            lemma_types_step(ts, i as int);
            assert(error_views(errors@) =~= types_violations(ts, i as int) + type_violations(ts, i as int));
        }
        i = i + 1;
    }
    if errors.len() > 0 {
        return Err(errors);
    }
    Ok(())
}

impl ModelError {
    /// The stable numeric code of this violation.
    pub fn get_code(&self) -> (r: u64)
        ensures
            r == self@.code(),
    {
        match self {
            ModelError::DuplicateTypeName { .. } => 201,
            ModelError::DuplicateRelationName { .. } => 202,
            ModelError::UnknownRelation { .. } => 203,
            ModelError::SelfReferencingRelation { .. } => 204,
        }
    }

    /// The span of the offending node.
    pub fn get_span(&self) -> (r: Span)
        requires
            self@.span() is Some,
        ensures
            self@.span() == Some(r),
    {
        let s = match self {
            ModelError::DuplicateTypeName { type2, .. } => type2.identifier.span,
            ModelError::DuplicateRelationName { relation2, .. } => relation2.span,
            ModelError::UnknownRelation { relation_identifier, .. } => relation_identifier.span,
            ModelError::SelfReferencingRelation { relation_identifier, .. } =>
                relation_identifier.span,
        };
        match s {
            Some(span) => span,
            None => Span { start: 0, end: 0 },
        }
    }
}

/// The number of `DuplicateTypeName` violations in `es` whose second type is named `n`.
pub open spec fn duplicate_type_count(es: Seq<ModelErrorView>, n: Seq<char>) -> nat
    decreases es.len(),
{
    if es.len() == 0 {
        0
    } else {
        duplicate_type_count(es.drop_last(), n) + match es.last() {
            ModelErrorView::DuplicateTypeName { type2, .. } => if type2.identifier.name == n {
                1nat
            } else {
                0nat
            },
            _ => 0nat,
        }
    }
}

/// The number of entries of `names` before index `i` that equal `n`.
pub open spec fn count_before(names: Seq<Seq<char>>, i: int, n: Seq<char>) -> nat
    decreases i,
{
    if i <= 0 {
        0
    } else {
        count_before(names, i - 1, n) + if names[i - 1] == n {
            1nat
        } else {
            0nat
        }
    }
}

proof fn lemma_duplicate_count_small(es: Seq<ModelErrorView>, n: Seq<char>)
    requires
        es.len() <= 1,
    ensures
        es.len() == 0 ==> duplicate_type_count(es, n) == 0,
        es.len() == 1 ==> duplicate_type_count(es, n) == match es[0] {
            ModelErrorView::DuplicateTypeName { type2, .. } => if type2.identifier.name == n {
                1nat
            } else {
                0nat
            },
            _ => 0nat,
        },
{
    if es.len() == 1 {
        assert(es.drop_last() =~= Seq::<ModelErrorView>::empty());
        assert(duplicate_type_count(es.drop_last(), n) == 0);
    }
}

proof fn lemma_duplicate_count_add(a: Seq<ModelErrorView>, b: Seq<ModelErrorView>, n: Seq<char>)
    ensures
        duplicate_type_count(a + b, n) == duplicate_type_count(a, n) + duplicate_type_count(b, n),
    decreases b.len(),
{
    if b.len() == 0 {
        assert(a + b =~= a);
    } else {
        assert((a + b).drop_last() =~= a + b.drop_last());
        lemma_duplicate_count_add(a, b.drop_last(), n);
    }
}

proof fn lemma_duplicate_count_flatten_zero(ss: Seq<Seq<ModelErrorView>>, n: Seq<char>)
    requires
        forall|i: int| 0 <= i < ss.len() ==> duplicate_type_count(#[trigger] ss[i], n) == 0,
    ensures
        duplicate_type_count(ss.flatten(), n) == 0,
    decreases ss.len(),
{
    if ss.len() == 0 {
        lemma_duplicate_count_small(ss.flatten(), n);
    } else {
        assert forall|i: int| 0 <= i < ss.drop_first().len() implies duplicate_type_count(
            #[trigger] ss.drop_first()[i],
            n,
        ) == 0 by {
            assert(ss.drop_first()[i] == ss[i + 1]);
        };
        lemma_duplicate_count_flatten_zero(ss.drop_first(), n);
        lemma_duplicate_count_add(ss.first(), ss.drop_first().flatten(), n);
    }
}

proof fn lemma_access_no_duplicate_type(a: AccessView, r: RelationView, t: TypeView, n: Seq<char>)
    ensures
        duplicate_type_count(access_violations(a, r, t), n) == 0,
    decreases a, 0nat,
{
    match a {
        AccessView::Difference { base, subtract, .. } => {
            lemma_access_no_duplicate_type(*base, r, t, n);
            lemma_access_no_duplicate_type(*subtract, r, t, n);
            lemma_duplicate_count_add(access_violations(*base, r, t), access_violations(*subtract, r, t), n);
        },
        AccessView::Union { children, .. } => {
            lemma_children_no_duplicate_type(children, r, t, n, children.len() as int);
        },
        AccessView::Intersection { children, .. } => {
            lemma_children_no_duplicate_type(children, r, t, n, children.len() as int);
        },
        AccessView::SelfComputed { .. } => {
            lemma_duplicate_count_small(access_violations(a, r, t), n);
        },
        _ => {
            lemma_duplicate_count_small(access_violations(a, r, t), n);
        },
    }
}

proof fn lemma_children_no_duplicate_type(cs: Seq<AccessView>, r: RelationView, t: TypeView, n: Seq<char>, k: int)
    requires
        0 <= k <= cs.len(),
    ensures
        forall|i: int| 0 <= i < k ==> duplicate_type_count(#[trigger] children_violations(cs, r, t)[i], n) == 0,
        k == cs.len() ==> duplicate_type_count(children_violations(cs, r, t).flatten(), n) == 0,
    decreases cs, k as nat,
{
    if k > 0 {
        lemma_children_no_duplicate_type(cs, r, t, n, k - 1);
        assert(decreases_to!(cs => cs[k - 1]));
        lemma_access_no_duplicate_type(cs[k - 1], r, t, n);
    }
    if k == cs.len() {
        lemma_duplicate_count_flatten_zero(children_violations(cs, r, t), n);
    }
}

proof fn lemma_relations_no_duplicate_type(t: TypeView, k: int, n: Seq<char>)
    requires
        0 <= k <= t.relations.len(),
    ensures
        duplicate_type_count(relations_violations(t, k), n) == 0,
    decreases k,
{
    if k == 0 {
        assert(relations_violations(t, 0) =~= Seq::<ModelErrorView>::empty());
        lemma_duplicate_count_small(relations_violations(t, 0), n);
    } else {
        lemma_relations_no_duplicate_type(t, k - 1, n);
        lemma_relations_step(t, k - 1);
        let r = t.relations[k - 1];
        let j = last_before(relation_names(t.relations), k - 1, r.identifier.name);
        let d: Seq<ModelErrorView> = if j >= 0 {
            seq![
                ModelErrorView::DuplicateRelationName {
                    relation1: t.relations[j],
                    relation2: r,
                    target_type: t,
                },
            ]
        } else {
            Seq::empty()
        };
        lemma_duplicate_count_small(d, n);
        lemma_access_no_duplicate_type(r.access, r, t, n);
        lemma_duplicate_count_add(d, access_violations(r.access, r, t), n);
        lemma_duplicate_count_add(relations_violations(t, k - 1), relation_violations(t, k - 1), n);
    }
}

proof fn lemma_count_before_last(names: Seq<Seq<char>>, i: int, n: Seq<char>)
    requires
        0 <= i <= names.len(),
    ensures
        (last_before(names, i, n) >= 0) == (count_before(names, i, n) > 0),
    decreases i,
{
    if i > 0 {
        lemma_count_before_last(names, i - 1, n);
    }
}

proof fn lemma_types_duplicate_count(ts: Seq<TypeView>, i: int, n: Seq<char>)
    requires
        0 <= i <= ts.len(),
    ensures
        duplicate_type_count(types_violations(ts, i), n) == if count_before(type_names(ts), i, n) > 0 {
            (count_before(type_names(ts), i, n) - 1) as nat
        } else {
            0
        },
    decreases i,
{
    if i == 0 {
        assert(types_violations(ts, 0) =~= Seq::<ModelErrorView>::empty());
        lemma_duplicate_count_small(types_violations(ts, 0), n);
    } else {
        let p = i - 1;
        lemma_types_duplicate_count(ts, p, n);
        lemma_types_step(ts, p);
        lemma_count_before_last(type_names(ts), p, n);
        let t = ts[p];
        let j = last_before(type_names(ts), p, t.identifier.name);
        let d: Seq<ModelErrorView> = if j >= 0 {
            seq![ModelErrorView::DuplicateTypeName { type1: ts[j], type2: t }]
        } else {
            Seq::empty()
        };
        lemma_duplicate_count_small(d, n);
        lemma_relations_no_duplicate_type(t, t.relations.len() as int, n);
        lemma_duplicate_count_add(d, relations_violations(t, t.relations.len() as int), n);
        lemma_duplicate_count_add(types_violations(ts, p), type_violations(ts, p), n);
        lemma_count_before_last(type_names(ts), p, t.identifier.name);
    }
}

/// Duplicates are reported at each later occurrence: among `k >= 1` types
/// named `n`, the check reports exactly `k - 1` duplicate-type violations for
/// that name.
pub proof fn lemma_duplicate_types_reported_after_first(m: ModelView, n: Seq<char>)
    ensures
        ({
            let k = count_before(type_names(m.types), m.types.len() as int, n);
            duplicate_type_count(violations(m), n) == if k > 0 {
                (k - 1) as nat
            } else {
                0
            }
        }),
{
    lemma_types_duplicate_count(m.types, m.types.len() as int, n);
}

/// A relation that names itself is reported once, as a self reference and
/// not as an unknown relation.
pub proof fn lemma_self_reference_reported_once(a: AccessView, r: RelationView, t: TypeView)
    requires
        a is SelfComputed,
        a->SelfComputed_relation.name == r.identifier.name,
    ensures
        access_violations(a, r, t) == seq![
            ModelErrorView::SelfReferencingRelation {
                relation_identifier: a->SelfComputed_relation,
                access: a,
                relation: r,
                target_type: t,
            },
        ],
{
}

proof fn lemma_relations_include(t: TypeView, b: int, n: int)
    requires
        0 <= b < n,
    ensures
        relations_violations(t, n).len() >= relation_violations(t, b).len(),
    decreases n,
{
    lemma_relations_step(t, n - 1);
    if n - 1 > b {
        lemma_relations_include(t, b, n - 1);
    }
}

proof fn lemma_types_include(ts: Seq<TypeView>, i: int, n: int)
    requires
        0 <= i < n,
    ensures
        types_violations(ts, n).len() >= type_violations(ts, i).len(),
    decreases n,
{
    lemma_types_step(ts, n - 1);
    if n - 1 > i {
        lemma_types_include(ts, i, n - 1);
    }
}

/// A model without violations has distinct relation names in each type.
pub proof fn lemma_checked_names_distinct(m: ModelView, i: int)
    requires
        violations(m).len() == 0,
        0 <= i < m.types.len(),
    ensures
        forall|a: int, b: int|
            0 <= a < b < m.types[i].relations.len() ==> #[trigger] m.types[i].relations[a].identifier.name
                != #[trigger] m.types[i].relations[b].identifier.name,
{
    let t = m.types[i];
    if exists|a: int, b: int| 0 <= a < b < t.relations.len() && #[trigger] t.relations[a].identifier.name == #[trigger] t.relations[b].identifier.name {
        let (a, b) = choose|a: int, b: int| 0 <= a < b < t.relations.len() && #[trigger] t.relations[a].identifier.name == #[trigger] t.relations[b].identifier.name;
        let names = relation_names(t.relations);
        lemma_last_before_range(names, b, t.relations[b].identifier.name);
        assert(names[a] == t.relations[b].identifier.name);
        assert(relation_violations(t, b).len() >= 1);
        lemma_relations_include(t, b, t.relations.len() as int);
        assert(type_violations(m.types, i).len() >= 1);
        lemma_types_include(m.types, i, m.types.len() as int);
    }
}

/// The start of a violation's span.
pub open spec fn start_of(e: ModelErrorView) -> int {
    e.span()->Some_0.start as int
}

/// Every violation of `es` has a span starting within `[lo, hi]`, and the
/// starts never decrease.
pub open spec fn sorted_within(es: Seq<ModelErrorView>, lo: int, hi: int) -> bool {
    &&& forall|i: int| 0 <= i < es.len() ==> (#[trigger] es[i]).span() is Some && lo <= start_of(es[i]) <= hi
    &&& forall|i: int, j: int| 0 <= i < j < es.len() ==> start_of(#[trigger] es[i]) <= start_of(#[trigger] es[j])
}

proof fn lemma_sorted_concat(a: Seq<ModelErrorView>, b: Seq<ModelErrorView>, lo: int, m: int, m2: int, hi: int)
    requires
        sorted_within(a, lo, m),
        sorted_within(b, m2, hi),
        m <= m2,
        lo <= m2,
        m <= hi,
    ensures
        sorted_within(a + b, lo, hi),
{
    let c = a + b;
    assert forall|i: int| 0 <= i < c.len() implies (#[trigger] c[i]).span() is Some && lo <= start_of(c[i]) <= hi by {
        if i >= a.len() {
            assert(c[i] == b[i - a.len()]);
        }
    };
    assert forall|i: int, j: int| 0 <= i < j < c.len() implies start_of(#[trigger] c[i]) <= start_of(#[trigger] c[j]) by {
        if j < a.len() {
        } else if i >= a.len() {
            assert(c[i] == b[i - a.len()] && c[j] == b[j - a.len()]);
        } else {
            assert(c[j] == b[j - a.len()]);
        }
    };
}

proof fn lemma_sorted_small(es: Seq<ModelErrorView>, lo: int, hi: int)
    requires
        es.len() <= 1,
        es.len() == 1 ==> es[0].span() is Some && lo <= start_of(es[0]) <= hi,
    ensures
        sorted_within(es, lo, hi),
{
}

proof fn lemma_access_sorted(a: AccessView, r: RelationView, t: TypeView)
    requires
        access_spanned(a),
        access_ordered(a),
    ensures
        sorted_within(access_violations(a, r, t), a.span()->Some_0.start as int, a.span()->Some_0.end as int),
    decreases a, 0nat,
{
    let sp = a.span()->Some_0;
    match a {
        AccessView::Difference { base, subtract, .. } => {
            lemma_access_sorted(*base, r, t);
            lemma_access_sorted(*subtract, r, t);
            lemma_sorted_concat(
                access_violations(*base, r, t),
                access_violations(*subtract, r, t),
                sp.start as int,
                base.span()->Some_0.end as int,
                subtract.span()->Some_0.start as int,
                sp.end as int,
            );
        },
        AccessView::Union { children, .. } => {
            lemma_children_sorted(children, r, t, sp.start as int, children.len() as int);
            let cv = children_violations(children, r, t);
            assert(cv.take(children.len() as int) =~= cv);
            if children.len() == 0 {
                lemma_sorted_small(cv.flatten(), sp.start as int, sp.end as int);
            }
        },
        AccessView::Intersection { children, .. } => {
            lemma_children_sorted(children, r, t, sp.start as int, children.len() as int);
            let cv = children_violations(children, r, t);
            assert(cv.take(children.len() as int) =~= cv);
            if children.len() == 0 {
                lemma_sorted_small(cv.flatten(), sp.start as int, sp.end as int);
            }
        },
        _ => {
            lemma_sorted_small(access_violations(a, r, t), sp.start as int, sp.end as int);
        },
    }
}

proof fn lemma_children_sorted(cs: Seq<AccessView>, r: RelationView, t: TypeView, lo: int, k: int)
    requires
        0 <= k <= cs.len(),
        forall|i: int| 0 <= i < cs.len() ==> access_spanned(#[trigger] cs[i]) && access_ordered(cs[i])
            && lo <= cs[i].span()->Some_0.start,
        forall|i: int| 0 <= i < cs.len() - 1 ==> precedes(#[trigger] cs[i].span(), cs[i + 1].span()),
    ensures
        k > 0 ==> sorted_within(
            children_violations(cs, r, t).take(k).flatten(),
            lo,
            cs[k - 1].span()->Some_0.end as int,
        ),
        k == 0 ==> children_violations(cs, r, t).take(k).flatten().len() == 0,
    decreases cs, k as nat,
{
    let cv = children_violations(cs, r, t);
    if k == 0 {
        assert(cv.take(0) =~= Seq::<Seq<ModelErrorView>>::empty());
    } else {
        lemma_children_sorted(cs, r, t, lo, k - 1);
        assert(decreases_to!(cs => cs[k - 1]));
        lemma_access_sorted(cs[k - 1], r, t);
        assert(cv.take(k) =~= cv.take(k - 1).push(cv[k - 1]));
        cv.take(k - 1).lemma_flatten_push(cv[k - 1]);
        let c = cs[k - 1].span()->Some_0;
        if k == 1 {
            assert(cv.take(0) =~= Seq::<Seq<ModelErrorView>>::empty());
            assert(cv.take(0).flatten() =~= Seq::<ModelErrorView>::empty());
            lemma_sorted_small(Seq::empty(), lo, lo);
            lemma_sorted_concat(Seq::empty(), cv[0], lo, lo, c.start as int, c.end as int);
            assert(cv.take(0).flatten() + cv[0] =~= cv[0]);
        } else {
            assert(precedes(cs[k - 2].span(), cs[k - 1].span()));
            lemma_sorted_concat(
                cv.take(k - 1).flatten(),
                cv[k - 1],
                lo,
                cs[k - 2].span()->Some_0.end as int,
                c.start as int,
                c.end as int,
            );
        }
    }
}

proof fn lemma_relation_sorted(t: TypeView, k: int)
    requires
        0 <= k < t.relations.len(),
        relation_spanned(t.relations[k]),
    ensures
        sorted_within(
            relation_violations(t, k),
            t.relations[k].span->Some_0.start as int,
            t.relations[k].span->Some_0.end as int,
        ),
{
    let r = t.relations[k];
    let sp = r.span->Some_0;
    let j = last_before(relation_names(t.relations), k, r.identifier.name);
    let d: Seq<ModelErrorView> = if j >= 0 {
        seq![ModelErrorView::DuplicateRelationName { relation1: t.relations[j], relation2: r, target_type: t }]
    } else {
        Seq::empty()
    };
    lemma_sorted_small(d, sp.start as int, sp.start as int);
    lemma_access_sorted(r.access, r, t);
    lemma_sorted_concat(
        d,
        access_violations(r.access, r, t),
        sp.start as int,
        sp.start as int,
        r.access.span()->Some_0.start as int,
        sp.end as int,
    );
}

proof fn lemma_relations_sorted(t: TypeView, n: int)
    requires
        0 <= n <= t.relations.len(),
        type_spanned(t),
    ensures
        n > 0 ==> sorted_within(
            relations_violations(t, n),
            t.identifier.span->Some_0.end as int,
            t.relations[n - 1].span->Some_0.end as int,
        ),
        n == 0 ==> relations_violations(t, n).len() == 0,
    decreases n,
{
    if n == 0 {
        assert(relations_violations(t, 0) =~= Seq::<ModelErrorView>::empty());
    } else {
        lemma_relations_sorted(t, n - 1);
        lemma_relations_step(t, n - 1);
        lemma_relation_sorted(t, n - 1);
        let rs = t.relations[n - 1].span->Some_0;
        assert(precedes(t.identifier.span, t.relations[n - 1].span));
        if n == 1 {
            lemma_sorted_small(relations_violations(t, 0), t.identifier.span->Some_0.end as int, t.identifier.span->Some_0.end as int);
            lemma_sorted_concat(
                relations_violations(t, 0),
                relation_violations(t, 0),
                t.identifier.span->Some_0.end as int,
                t.identifier.span->Some_0.end as int,
                rs.start as int,
                rs.end as int,
            );
        } else {
            assert(precedes(t.relations[n - 2].span, t.relations[n - 1].span));
            lemma_sorted_concat(
                relations_violations(t, n - 1),
                relation_violations(t, n - 1),
                t.identifier.span->Some_0.end as int,
                t.relations[n - 2].span->Some_0.end as int,
                rs.start as int,
                rs.end as int,
            );
        }
    }
}

proof fn lemma_type_sorted(ts: Seq<TypeView>, i: int)
    requires
        0 <= i < ts.len(),
        type_spanned(ts[i]),
    ensures
        sorted_within(type_violations(ts, i), ts[i].span->Some_0.start as int, ts[i].span->Some_0.end as int),
{
    let t = ts[i];
    let sp = t.span->Some_0;
    let id = t.identifier.span->Some_0;
    let j = last_before(type_names(ts), i, t.identifier.name);
    let d: Seq<ModelErrorView> = if j >= 0 {
        seq![ModelErrorView::DuplicateTypeName { type1: ts[j], type2: t }]
    } else {
        Seq::empty()
    };
    lemma_sorted_small(d, sp.start as int, id.start as int);
    let n = t.relations.len() as int;
    lemma_relations_sorted(t, n);
    if n == 0 {
        lemma_sorted_small(relations_violations(t, n), id.end as int, sp.end as int);
    } else {
        assert(inside(t.relations[n - 1].span, sp));
    }
    lemma_sorted_concat(d, relations_violations(t, n), sp.start as int, id.start as int, id.end as int, sp.end as int);
}

proof fn lemma_types_sorted(ts: Seq<TypeView>, n: int)
    requires
        0 <= n <= ts.len(),
        forall|k: int| 0 <= k < ts.len() ==> type_spanned(#[trigger] ts[k]),
        forall|k: int| 0 <= k < ts.len() - 1 ==> precedes(#[trigger] ts[k].span, ts[k + 1].span),
    ensures
        n > 0 ==> sorted_within(types_violations(ts, n), ts[0].span->Some_0.start as int, ts[n - 1].span->Some_0.end as int),
        n > 0 ==> ts[0].span->Some_0.start <= ts[n - 1].span->Some_0.start,
        n == 0 ==> types_violations(ts, n).len() == 0,
    decreases n,
{
    if n == 0 {
        assert(types_violations(ts, 0) =~= Seq::<ModelErrorView>::empty());
    } else {
        lemma_types_sorted(ts, n - 1);
        lemma_types_step(ts, n - 1);
        lemma_type_sorted(ts, n - 1);
        let sp = ts[n - 1].span->Some_0;
        if n == 1 {
            lemma_sorted_small(types_violations(ts, 0), sp.start as int, sp.start as int);
            lemma_sorted_concat(types_violations(ts, 0), type_violations(ts, 0), sp.start as int, sp.start as int, sp.start as int, sp.end as int);
        } else {
            assert(precedes(ts[n - 2].span, ts[n - 1].span));
            assert(type_spanned(ts[n - 2]));
            assert(ts[n - 2].span->Some_0.start <= ts[n - 2].span->Some_0.end);
            assert(ts[0].span->Some_0.start <= ts[n - 2].span->Some_0.end);
            assert(ts[0].span->Some_0.start <= sp.start);
            assert(ts[n - 2].span->Some_0.end <= sp.end);
            lemma_sorted_concat(
                types_violations(ts, n - 1),
                type_violations(ts, n - 1),
                ts[0].span->Some_0.start as int,
                ts[n - 2].span->Some_0.end as int,
                sp.start as int,
                sp.end as int,
            );
        }
    }
}

/// The check of a parsed model reports its violations in source order:
/// each has a span, and their starts never decrease. (The result is a
/// function of the model alone: `check_model` returns exactly `violations`.)
pub proof fn lemma_violations_in_source_order(src: Seq<char>)
    requires
        crate::text::byte_len(src) <= usize::MAX,
    ensures
        ({
            let vs = violations(ModelView { types: crate::parser::p_file(crate::parser::source_tokens(src), 0).0 });
            &&& forall|i: int| 0 <= i < vs.len() ==> (#[trigger] vs[i]).span() is Some
            &&& forall|i: int, j: int| 0 <= i < j < vs.len() ==> start_of(#[trigger] vs[i]) <= start_of(#[trigger] vs[j])
        }),
{
    let ts = crate::parser::p_file(crate::parser::source_tokens(src), 0).0;
    crate::parser::lemma_parsed_nodes_spanned(src);
    lemma_types_sorted(ts, ts.len() as int);
}

} // verus!
