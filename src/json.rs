//! The canonical JSON form of a model (`type_definitions`), as plain data,
//! and the projection of the syntax tree onto it.

use vstd::prelude::*;
use crate::model::{
    access_views, lemma_children_view, Access, AccessView, Identifier, IdentifierView,
    Relation, RelationView, Type as ModelType, TypeView,
    AuthorizationModel as Model, ModelView,
};
use crate::checker::{
lemma_checked_names_distinct, violations,
};
use crate::text::{
    lemma_text_lt_irreflexive, lemma_text_lt_total,
    lemma_text_lt_transitive, text_eq, text_less, text_lt,
};

verus! {

#[derive(Debug, PartialEq, Eq)]
pub struct AuthorizationModel {
    pub type_definitions: Vec<Type>,
}

/// A type with its relations, keyed by relation name in ascending order.
#[derive(Debug, PartialEq, Eq)]
pub struct Type {
    pub name: String,
    pub relations: Vec<(String, RelationData)>,
}

#[derive(Debug, PartialEq, Eq)]
pub struct Usersets {
    pub child: Vec<RelationData>,
}

#[derive(Debug, PartialEq, Eq)]
pub struct ObjectRelation {
    pub object: String,
    pub relation: String,
}

#[derive(Debug, PartialEq, Eq)]
pub struct TupleToUserset {
    pub tupleset: ObjectRelation,
    pub computed_userset: ObjectRelation,
}

#[derive(Debug, PartialEq, Eq)]
pub enum RelationData {
    Direct,
    Union { union: Usersets },
    Intersection { intersection: Usersets },
    Difference { base: Box<RelationData>, subtract: Box<RelationData> },
    TupleToUserset { tuple_to_userset: TupleToUserset },
    ComputedUserset { computed_userset: ObjectRelation },
}

pub ghost struct ObjectRelationView {
    pub object: Seq<char>,
    pub relation: Seq<char>,
}

pub ghost enum RelationDataView {
    Direct,
    Union { child: Seq<RelationDataView> },
    Intersection { child: Seq<RelationDataView> },
    Difference { base: Box<RelationDataView>, subtract: Box<RelationDataView> },
    TupleToUserset { tupleset: ObjectRelationView, computed_userset: ObjectRelationView },
    ComputedUserset { computed_userset: ObjectRelationView },
}

pub ghost struct TypeDefinitionView {
    pub name: Seq<char>,
    pub relations: Seq<(Seq<char>, RelationDataView)>,
}

pub ghost struct JsonModelView {
    pub type_definitions: Seq<TypeDefinitionView>,
}

impl View for ObjectRelation {
    type V = ObjectRelationView;

    open spec fn view(&self) -> ObjectRelationView {
        ObjectRelationView { object: self.object@, relation: self.relation@ }
    }
}

pub open spec fn data_view(d: RelationData) -> RelationDataView
    decreases d,
{
    match d {
        RelationData::Direct => RelationDataView::Direct,
        RelationData::Union { union } => RelationDataView::Union {
            child: Seq::new(union.child@.len(), |i: int| if 0 <= i < union.child@.len() { data_view(union.child@[i]) } else { RelationDataView::Direct }),
        },
        RelationData::Intersection { intersection } => RelationDataView::Intersection {
            child: Seq::new(intersection.child@.len(), |i: int| if 0 <= i < intersection.child@.len() { data_view(intersection.child@[i]) } else { RelationDataView::Direct }),
        },
        RelationData::Difference { base, subtract } => RelationDataView::Difference {
            base: Box::new(data_view(*base)),
            subtract: Box::new(data_view(*subtract)),
        },
        RelationData::TupleToUserset { tuple_to_userset } => RelationDataView::TupleToUserset {
            tupleset: tuple_to_userset.tupleset@,
            computed_userset: tuple_to_userset.computed_userset@,
        },
        RelationData::ComputedUserset { computed_userset } => RelationDataView::ComputedUserset {
            computed_userset: computed_userset@,
        },
    }
}

impl View for RelationData {
    type V = RelationDataView;

    open spec fn view(&self) -> RelationDataView {
        data_view(*self)
    }
}

pub open spec fn data_views(ds: Seq<RelationData>) -> Seq<RelationDataView> {
    Seq::new(ds.len(), |i: int| ds[i]@)
}

pub open spec fn entry_views(es: Seq<(String, RelationData)>) -> Seq<(Seq<char>, RelationDataView)> {
    Seq::new(es.len(), |i: int| (es[i].0@, es[i].1@))
}

impl View for Type {
    type V = TypeDefinitionView;

    open spec fn view(&self) -> TypeDefinitionView {
        TypeDefinitionView { name: self.name@, relations: entry_views(self.relations@) }
    }
}

impl View for AuthorizationModel {
    type V = JsonModelView;

    open spec fn view(&self) -> JsonModelView {
        JsonModelView {
            type_definitions: Seq::new(self.type_definitions@.len(), |i: int| self.type_definitions@[i]@),
        }
    }
}

/// The children of a composite value's view are the views of its children.
pub proof fn lemma_child_view(d: &RelationData)
    ensures
        d is Union ==> d@->Union_child == data_views(d->union.child@),
        d is Intersection ==> d@->Intersection_child == data_views(d->intersection.child@),
{
    match d {
        RelationData::Union { union } => {
            assert(d@->Union_child =~= data_views(union.child@));
        },
        RelationData::Intersection { intersection } => {
            assert(d@->Intersection_child =~= data_views(intersection.child@));
        },
        _ => {},
    }
}

/// The JSON shape of an access.
pub open spec fn project_access(a: AccessView) -> RelationDataView
    decreases a,
{
    match a {
        AccessView::Direct { .. } => RelationDataView::Direct,
        AccessView::SelfComputed { relation, .. } => RelationDataView::ComputedUserset {
            computed_userset: ObjectRelationView { object: Seq::empty(), relation: relation.name },
        },
        AccessView::Computed { object, relation, .. } => RelationDataView::TupleToUserset {
            tupleset: ObjectRelationView { object: Seq::empty(), relation: object.name },
            computed_userset: ObjectRelationView { object: Seq::empty(), relation: relation.name },
        },
        AccessView::Union { children, .. } => RelationDataView::Union {
            child: Seq::new(children.len(), |i: int| if 0 <= i < children.len() { project_access(children[i]) } else { RelationDataView::Direct }),
        },
        AccessView::Intersection { children, .. } => RelationDataView::Intersection {
            child: Seq::new(children.len(), |i: int| if 0 <= i < children.len() { project_access(children[i]) } else { RelationDataView::Direct }),
        },
        AccessView::Difference { base, subtract, .. } => RelationDataView::Difference {
            base: Box::new(project_access(*base)),
            subtract: Box::new(project_access(*subtract)),
        },
    }
}

fn empty_object_relation(relation: &Identifier) -> (r: ObjectRelation)
    ensures
        r@ == (ObjectRelationView { object: Seq::empty(), relation: relation.name@ }),
{
    ObjectRelation { object: String::new(), relation: relation.name.clone() }
}

fn project_children(children: &Vec<Access>) -> (r: Vec<RelationData>)
    ensures
        data_views(r@) == Seq::new(children@.len(), |i: int| project_access(children@[i]@)),
    decreases children@, 0nat,
{
    let mut out: Vec<RelationData> = Vec::new();
    let mut i: usize = 0;
    while i < children.len()
        invariant
            0 <= i <= children@.len(),
            out@.len() == i,
            forall|k: int| 0 <= k < i ==> #[trigger] out@[k]@ == project_access(children@[k]@),
        decreases children@.len() - i,
    {
        assert(decreases_to!(children@ => children@[i as int]));
        out.push(RelationData::from_access(&children[i]));
        i = i + 1;
    }
    assert(data_views(out@) =~= Seq::new(children@.len(), |i: int| project_access(children@[i]@)));
    out
}

impl RelationData {
    /// The JSON shape of `access`.
    pub fn from_access(access: &Access) -> (r: RelationData)
        ensures
            r@ == project_access(access@),
        decreases access, 1nat,
    {
        proof {
            lemma_children_view(access);
        }
        let r = match access {
            Access::Direct { .. } => RelationData::Direct,
            Access::SelfComputed { relation, .. } => RelationData::ComputedUserset {
                computed_userset: empty_object_relation(relation),
            },
            Access::Computed { object, relation, .. } => RelationData::TupleToUserset {
                tuple_to_userset: TupleToUserset {
                    tupleset: empty_object_relation(object),
                    computed_userset: empty_object_relation(relation),
                },
            },
            Access::Union { children, .. } => RelationData::Union {
                union: Usersets { child: project_children(children) },
            },
            Access::Intersection { children, .. } => RelationData::Intersection {
                intersection: Usersets { child: project_children(children) },
            },
            Access::Difference { base, subtract, .. } => RelationData::Difference {
                base: Box::new(RelationData::from_access(base)),
                subtract: Box::new(RelationData::from_access(subtract)),
            },
        };
        proof {
            lemma_child_view(&r);
            if access is Union {
                assert(r@->Union_child =~= project_access(access@)->Union_child);
            }
            if access is Intersection {
                assert(r@->Intersection_child =~= project_access(access@)->Intersection_child);
            }
        }
        r
    }
}

/// The relations of a type as a table from name to JSON shape; a later
/// relation with a name already seen replaces the earlier one.
pub open spec fn relation_table(rs: Seq<RelationView>) -> Map<Seq<char>, RelationDataView>
    decreases rs.len(),
{
    if rs.len() == 0 {
        Map::empty()
    } else {
        relation_table(rs.drop_last()).insert(rs.last().identifier.name, project_access(rs.last().access))
    }
}

/// Keys in strictly ascending order.
pub open spec fn keys_sorted(es: Seq<(Seq<char>, RelationDataView)>) -> bool {
    forall|i: int, j: int| 0 <= i < j < es.len() ==> text_lt(#[trigger] es[i].0, #[trigger] es[j].0)
}

/// `es` lists the table `t` in ascending key order.
pub open spec fn entries_agree(es: Seq<(Seq<char>, RelationDataView)>, t: Map<Seq<char>, RelationDataView>) -> bool {
    &&& keys_sorted(es)
    &&& forall|i: int| 0 <= i < es.len() ==> #[trigger] t.contains_key(es[i].0) && t[es[i].0] == es[i].1
    &&& forall|k: Seq<char>| #[trigger] t.contains_key(k) ==> exists|i: int| 0 <= i < es.len() && #[trigger] es[i].0 == k
}

/// No two relations share a name.
pub open spec fn names_distinct(rs: Seq<RelationView>) -> bool {
    forall|a: int, b: int| 0 <= a < b < rs.len() ==> #[trigger] rs[a].identifier.name != #[trigger] rs[b].identifier.name
}

pub proof fn lemma_relation_table_keys(rs: Seq<RelationView>, n: Seq<char>)
    ensures
        relation_table(rs).contains_key(n) <==> exists|j: int| 0 <= j < rs.len() && #[trigger] rs[j].identifier.name == n,
    decreases rs.len(),
{
    if rs.len() > 0 {
        lemma_relation_table_keys(rs.drop_last(), n);
        if exists|j: int| 0 <= j < rs.len() && #[trigger] rs[j].identifier.name == n {
            let j = choose|j: int| 0 <= j < rs.len() && #[trigger] rs[j].identifier.name == n;
            if j < rs.len() - 1 {
                assert(rs.drop_last()[j].identifier.name == n);
            }
        }
        if exists|j: int| 0 <= j < rs.drop_last().len() && #[trigger] rs.drop_last()[j].identifier.name == n {
            let j = choose|j: int| 0 <= j < rs.drop_last().len() && #[trigger] rs.drop_last()[j].identifier.name == n;
            assert(rs[j].identifier.name == n);
        }
    }
}

/// Puts `(key, value)` into the sorted entries `es`, replacing the value of an
/// equal key.
fn insert_entry(
    es: &mut Vec<(String, RelationData)>,
    key: String,
    value: RelationData,
    Ghost(t): Ghost<Map<Seq<char>, RelationDataView>>,
)
    requires
        entries_agree(entry_views(old(es)@), t),
    ensures
        entries_agree(entry_views(final(es)@), t.insert(key@, value@)),
        final(es)@.len() == old(es)@.len() + if t.contains_key(key@) {
            0int
        } else {
            1int
        },
{
    let ghost ev = entry_views(es@);
    let ghost kv = key@;
    let ghost vv = value@;
    let mut p: usize = 0;
    while p < es.len() && text_less(es[p].0.as_str(), key.as_str())
        invariant
            ev == entry_views(es@),
            kv == key@,
            0 <= p <= es@.len(),
            forall|j: int| 0 <= j < p ==> text_lt(#[trigger] ev[j].0, kv),
        decreases es@.len() - p,
    {
        p = p + 1;
    }
    let ghost t2 = t.insert(kv, vv);
    if p < es.len() && text_eq(es[p].0.as_str(), key.as_str()) {
        es.remove(p);
        es.insert(p, (key, value));
        proof {
            let nv = entry_views(es@);
            assert(nv =~= ev.update(p as int, (kv, vv)));
            assert(keys_sorted(nv)) by {
                assert forall|i: int, j: int| 0 <= i < j < nv.len() implies text_lt(#[trigger] nv[i].0, #[trigger] nv[j].0) by {
                    assert(text_lt(ev[i].0, ev[j].0));
                };
            };
            assert forall|i: int| 0 <= i < nv.len() implies #[trigger] t2.contains_key(nv[i].0) && t2[nv[i].0] == nv[i].1 by {
                if i != p {
                    assert(t.contains_key(ev[i].0));
                    if ev[i].0 == kv {
                        if i < p {
                            lemma_text_lt_irreflexive(kv);
                        } else {
                            lemma_text_lt_irreflexive(kv);
                            assert(text_lt(ev[p as int].0, ev[i].0));
                        }
                    }
                }
            };
            assert forall|k: Seq<char>| #[trigger] t2.contains_key(k) implies exists|i: int| 0 <= i < nv.len() && #[trigger] nv[i].0 == k by {
                if k == kv {
                    assert(nv[p as int].0 == k);
                } else {
                    let i = choose|i: int| 0 <= i < ev.len() && #[trigger] ev[i].0 == k;
                    assert(nv[i].0 == k);
                }
            };
            assert(ev[p as int].0 == kv);
            assert(t.contains_key(ev[p as int].0));
        }
    } else {
        es.insert(p, (key, value));
        proof {
            let nv = entry_views(es@);
            assert(nv =~= ev.insert(p as int, (kv, vv)));
            assert forall|j: int| p <= j < ev.len() implies text_lt(kv, #[trigger] ev[j].0) by {
                assert(!text_lt(ev[p as int].0, kv));
                assert(ev[p as int].0 != kv);
                lemma_text_lt_total(ev[p as int].0, kv);
                if j > p {
                    lemma_text_lt_transitive(kv, ev[p as int].0, ev[j].0);
                }
            };
            assert(keys_sorted(nv)) by {
                assert forall|i: int, j: int| 0 <= i < j < nv.len() implies text_lt(#[trigger] nv[i].0, #[trigger] nv[j].0) by {
                    if j < p {
                        assert(text_lt(ev[i].0, ev[j].0));
                    } else if j == p {
                    } else if i < p {
                        assert(text_lt(ev[i].0, kv));
                        lemma_text_lt_transitive(ev[i].0, kv, ev[j - 1].0);
                    } else if i == p {
                    } else {
                        assert(text_lt(ev[i - 1].0, ev[j - 1].0));
                    }
                };
            };
            assert forall|i: int| 0 <= i < nv.len() implies #[trigger] t2.contains_key(nv[i].0) && t2[nv[i].0] == nv[i].1 by {
                if i < p {
                    assert(t.contains_key(ev[i].0));
                    lemma_text_lt_irreflexive(kv);
                } else if i > p {
                    assert(t.contains_key(ev[i - 1].0));
                    assert(text_lt(kv, ev[i - 1].0));
                    lemma_text_lt_irreflexive(kv);
                }
            };
            assert forall|k: Seq<char>| #[trigger] t2.contains_key(k) implies exists|i: int| 0 <= i < nv.len() && #[trigger] nv[i].0 == k by {
                if k == kv {
                    assert(nv[p as int].0 == k);
                } else {
                    let i = choose|i: int| 0 <= i < ev.len() && #[trigger] ev[i].0 == k;
                    if i < p {
                        assert(nv[i].0 == k);
                    } else {
                        assert(nv[i + 1].0 == k);
                    }
                }
            };
            assert(!t.contains_key(kv)) by {
                if t.contains_key(kv) {
                    let i = choose|i: int| 0 <= i < ev.len() && #[trigger] ev[i].0 == kv;
                    lemma_text_lt_irreflexive(kv);
                    if i >= p {
                        assert(text_lt(kv, ev[i].0));
                    }
                }
            };
        }
    }
}

impl Type {
    /// The JSON shape of a type: its name, and its relations keyed by name in
    /// ascending order.
    pub fn from_type(type_in: &ModelType) -> (r: Type)
        ensures
            r@.name == type_in@.identifier.name,
            entries_agree(r@.relations, relation_table(type_in@.relations)),
            names_distinct(type_in@.relations) ==> r@.relations.len() == type_in@.relations.len(),
    {
        let ghost rs = type_in@.relations;
        let mut es: Vec<(String, RelationData)> = Vec::new();
        let mut k: usize = 0;
        assert(rs.take(0) =~= Seq::<RelationView>::empty());
        while k < type_in.relations.len()
            invariant
                rs == type_in@.relations,
                0 <= k <= rs.len(),
                entries_agree(entry_views(es@), relation_table(rs.take(k as int))),
                names_distinct(rs) ==> es@.len() == k,
            decreases rs.len() - k,
        {
            let r = &type_in.relations[k];
            assert(rs[k as int] == r@);
            proof {
                assert(rs.take(k + 1).drop_last() =~= rs.take(k as int));
                lemma_relation_table_keys(rs.take(k as int), r@.identifier.name);
                if names_distinct(rs) {
                    assert forall|j: int| 0 <= j < rs.take(k as int).len() implies #[trigger] rs.take(k as int)[j].identifier.name != r@.identifier.name by {
                        assert(rs[j].identifier.name != rs[k as int].identifier.name);
                    };
                }
            }
            insert_entry(
                &mut es,
                r.identifier.name.clone(),
                RelationData::from_access(&r.access),
                Ghost(relation_table(rs.take(k as int))),
            );
            k = k + 1;
        }
        assert(rs.take(k as int) =~= rs);
        Type { name: type_in.identifier.name.clone(), relations: es }
    }
}

impl AuthorizationModel {
    /// The JSON shape of a model: its types, in order.
    pub fn from_model(model: &Model) -> (r: AuthorizationModel)
        ensures
            is_projection(model@, r@),
    {
        let mut ds: Vec<Type> = Vec::new();
        let mut i: usize = 0;
        while i < model.types.len()
            invariant
                0 <= i <= model@.types.len(),
                ds@.len() == i,
                forall|j: int| 0 <= j < i ==> {
                    let d = #[trigger] ds@[j]@;
                    &&& d.name == model@.types[j].identifier.name
                    &&& entries_agree(d.relations, relation_table(model@.types[j].relations))
                    &&& names_distinct(model@.types[j].relations) ==> d.relations.len() == model@.types[j].relations.len()
                },
            decreases model@.types.len() - i,
        {
            ds.push(Type::from_type(&model.types[i]));
            i = i + 1;
        }
        let r = AuthorizationModel { type_definitions: ds };
        assert(forall|j: int| 0 <= j < model@.types.len() ==> #[trigger] r@.type_definitions[j] == ds@[j]@);
        r
    }
}

/// `j` is the JSON shape of `m`: one definition per type, in order, each
/// listing its type's relation table in ascending key order.
pub open spec fn is_projection(m: ModelView, j: JsonModelView) -> bool {
    &&& j.type_definitions.len() == m.types.len()
    &&& forall|i: int| 0 <= i < m.types.len() ==> {
        let d = #[trigger] j.type_definitions[i];
        &&& d.name == m.types[i].identifier.name
        &&& entries_agree(d.relations, relation_table(m.types[i].relations))
        &&& names_distinct(m.types[i].relations) ==> d.relations.len() == m.types[i].relations.len()
    }
}

pub open spec fn unspanned(name: Seq<char>) -> IdentifierView {
    IdentifierView { name: name, span: None }
}

/// The access that a JSON shape reads back as, without spans.
pub open spec fn access_from_data(d: RelationDataView) -> AccessView
    decreases d,
{
    match d {
        RelationDataView::Direct => AccessView::Direct { span: None },
        RelationDataView::ComputedUserset { computed_userset } => AccessView::SelfComputed {
            relation: unspanned(computed_userset.relation),
            span: None,
        },
        RelationDataView::TupleToUserset { tupleset, computed_userset } => AccessView::Computed {
            object: unspanned(tupleset.relation),
            relation: unspanned(computed_userset.relation),
            span: None,
        },
        RelationDataView::Union { child } => AccessView::Union {
            children: Seq::new(child.len(), |i: int| if 0 <= i < child.len() { access_from_data(child[i]) } else { AccessView::Direct { span: None } }),
            span: None,
        },
        RelationDataView::Intersection { child } => AccessView::Intersection {
            children: Seq::new(child.len(), |i: int| if 0 <= i < child.len() { access_from_data(child[i]) } else { AccessView::Direct { span: None } }),
            span: None,
        },
        RelationDataView::Difference { base, subtract } => AccessView::Difference {
            base: Box::new(access_from_data(*base)),
            subtract: Box::new(access_from_data(*subtract)),
            span: None,
        },
    }
}

/// The type that a JSON definition reads back as: relations in key order.
pub open spec fn type_from_definition(d: TypeDefinitionView) -> TypeView {
    TypeView {
        identifier: unspanned(d.name),
        relations: Seq::new(
            d.relations.len(),
            |k: int|
                RelationView {
                    identifier: unspanned(d.relations[k].0),
                    access: access_from_data(d.relations[k].1),
                    span: None,
                },
        ),
        span: None,
    }
}

pub open spec fn model_from_json(j: JsonModelView) -> ModelView {
    ModelView {
        types: Seq::new(j.type_definitions.len(), |i: int| type_from_definition(j.type_definitions[i])),
    }
}

fn identifier_of(name: &String) -> (r: Identifier)
    ensures
        r@ == unspanned(name@),
{
    Identifier { name: name.clone(), span: None }
}

fn children_to_accesses(child: &Vec<RelationData>) -> (r: Vec<Access>)
    ensures
        access_views(r@) == Seq::new(child@.len(), |i: int| access_from_data(child@[i]@)),
    decreases child@, 0nat,
{
    let mut out: Vec<Access> = Vec::new();
    let mut i: usize = 0;
    while i < child.len()
        invariant
            0 <= i <= child@.len(),
            out@.len() == i,
            forall|k: int| 0 <= k < i ==> #[trigger] out@[k]@ == access_from_data(child@[k]@),
        decreases child@.len() - i,
    {
        assert(decreases_to!(child@ => child@[i as int]));
        out.push(child[i].to_access());
        i = i + 1;
    }
    assert(access_views(out@) =~= Seq::new(child@.len(), |i: int| access_from_data(child@[i]@)));
    out
}

impl RelationData {
    /// The access this JSON shape stands for; spans are absent.
    pub fn to_access(&self) -> (r: Access)
        ensures
            r@ == access_from_data(self@),
        decreases self, 1nat,
    {
        proof {
            lemma_child_view(self);
        }
        let r = match self {
            RelationData::Direct => Access::Direct { span: None },
            RelationData::ComputedUserset { computed_userset } => Access::SelfComputed {
                relation: identifier_of(&computed_userset.relation),
                span: None,
            },
            RelationData::TupleToUserset { tuple_to_userset } => Access::Computed {
                object: identifier_of(&tuple_to_userset.tupleset.relation),
                relation: identifier_of(&tuple_to_userset.computed_userset.relation),
                span: None,
            },
            RelationData::Union { union } => Access::Union {
                children: children_to_accesses(&union.child),
                span: None,
            },
            RelationData::Intersection { intersection } => Access::Intersection {
                children: children_to_accesses(&intersection.child),
                span: None,
            },
            RelationData::Difference { base, subtract } => Access::Difference {
                base: Box::new(base.to_access()),
                subtract: Box::new(subtract.to_access()),
                span: None,
            },
        };
        proof {
            lemma_children_view(&r);
            if self is Union {
                assert(r@->Union_children =~= access_from_data(self@)->Union_children);
            }
            if self is Intersection {
                assert(r@->Intersection_children =~= access_from_data(self@)->Intersection_children);
            }
        }
        r
    }
}

impl Type {
    /// The type this definition stands for, with its relations in key order.
    pub fn to_type(&self) -> (r: ModelType)
        ensures
            r@ == type_from_definition(self@),
    {
        let mut rs: Vec<Relation> = Vec::new();
        let mut k: usize = 0;
        while k < self.relations.len()
            invariant
                0 <= k <= self.relations@.len(),
                rs@.len() == k,
                forall|q: int| 0 <= q < k ==> #[trigger] rs@[q]@ == type_from_definition(self@).relations[q],
            decreases self.relations@.len() - k,
        {
            let e = &self.relations[k];
            rs.push(Relation { identifier: identifier_of(&e.0), access: e.1.to_access(), span: None });
            k = k + 1;
        }
        let r = ModelType { identifier: identifier_of(&self.name), relations: rs, span: None };
        assert(r@.relations =~= type_from_definition(self@).relations);
        r
    }
}

impl AuthorizationModel {
    /// The model this JSON form stands for: spans are absent and each type's
    /// relations come in key order.
    pub fn to_model(&self) -> (r: Model)
        ensures
            r@ == model_from_json(self@),
    {
        let mut ts: Vec<ModelType> = Vec::new();
        let mut i: usize = 0;
        while i < self.type_definitions.len()
            invariant
                0 <= i <= self.type_definitions@.len(),
                ts@.len() == i,
                forall|q: int| 0 <= q < i ==> #[trigger] ts@[q]@ == model_from_json(self@).types[q],
            decreases self.type_definitions@.len() - i,
        {
            ts.push(self.type_definitions[i].to_type());
            i = i + 1;
        }
        let r = Model { types: ts };
        assert(r@.types =~= model_from_json(self@).types);
        r
    }
}

/// The same access with every span removed.
pub open spec fn erase_access(a: AccessView) -> AccessView
    decreases a,
{
    match a {
        AccessView::Direct { .. } => AccessView::Direct { span: None },
        AccessView::SelfComputed { relation, .. } => AccessView::SelfComputed {
            relation: unspanned(relation.name),
            span: None,
        },
        AccessView::Computed { object, relation, .. } => AccessView::Computed {
            object: unspanned(object.name),
            relation: unspanned(relation.name),
            span: None,
        },
        AccessView::Union { children, .. } => AccessView::Union {
            children: Seq::new(children.len(), |i: int| if 0 <= i < children.len() { erase_access(children[i]) } else { AccessView::Direct { span: None } }),
            span: None,
        },
        AccessView::Intersection { children, .. } => AccessView::Intersection {
            children: Seq::new(children.len(), |i: int| if 0 <= i < children.len() { erase_access(children[i]) } else { AccessView::Direct { span: None } }),
            span: None,
        },
        AccessView::Difference { base, subtract, .. } => AccessView::Difference {
            base: Box::new(erase_access(*base)),
            subtract: Box::new(erase_access(*subtract)),
            span: None,
        },
    }
}

/// Reading back the JSON shape of an access gives the access without spans.
pub proof fn lemma_access_read_back(a: AccessView)
    ensures
        access_from_data(project_access(a)) == erase_access(a),
    decreases a, 0nat,
{
    match a {
        AccessView::Union { children, .. } => {
            lemma_children_read_back(children, children.len() as int);
            assert(access_from_data(project_access(a))->Union_children =~= erase_access(a)->Union_children);
        },
        AccessView::Intersection { children, .. } => {
            lemma_children_read_back(children, children.len() as int);
            assert(access_from_data(project_access(a))->Intersection_children =~= erase_access(a)->Intersection_children);
        },
        AccessView::Difference { base, subtract, .. } => {
            lemma_access_read_back(*base);
            lemma_access_read_back(*subtract);
        },
        _ => {},
    }
}

proof fn lemma_children_read_back(cs: Seq<AccessView>, k: int)
    requires
        0 <= k <= cs.len(),
    ensures
        forall|i: int| 0 <= i < k ==> access_from_data(project_access(#[trigger] cs[i])) == erase_access(cs[i]),
    decreases cs, k as nat,
{
    if k > 0 {
        lemma_children_read_back(cs, k - 1);
        assert(decreases_to!(cs => cs[k - 1]));
        lemma_access_read_back(cs[k - 1]);
    }
}

/// In a table of relations with distinct names, each relation's name maps to
/// the JSON shape of its own access.
proof fn lemma_relation_table_distinct(rs: Seq<RelationView>, k: int)
    requires
        names_distinct(rs),
        0 <= k < rs.len(),
    ensures
        relation_table(rs).contains_key(rs[k].identifier.name),
        relation_table(rs)[rs[k].identifier.name] == project_access(rs[k].access),
    decreases rs.len(),
{
    if k < rs.len() - 1 {
        assert(names_distinct(rs.drop_last()));
        assert(rs.drop_last()[k] == rs[k]);
        lemma_relation_table_distinct(rs.drop_last(), k);
        assert(rs[k].identifier.name != rs.last().identifier.name);
    }
}

/// Projecting a model without violations to JSON and reading it back gives
/// the same types in the same order, each with the same relations up to
/// order, and the same accesses without spans.
pub proof fn lemma_projection_round_trip(m: ModelView, j: JsonModelView)
    requires
        violations(m).len() == 0,
        is_projection(m, j),
    ensures
        ({
            let back = model_from_json(j);
            &&& back.types.len() == m.types.len()
            &&& forall|i: int| 0 <= i < m.types.len() ==> {
                &&& (#[trigger] back.types[i]).identifier.name == m.types[i].identifier.name
                &&& back.types[i].relations.len() == m.types[i].relations.len()
                &&& forall|k: int| #![trigger m.types[i].relations[k]] 0 <= k < m.types[i].relations.len() ==> exists|q: int| {
                    &&& 0 <= q < back.types[i].relations.len()
                    &&& #[trigger] back.types[i].relations[q].identifier.name == m.types[i].relations[k].identifier.name
                    &&& back.types[i].relations[q].access == erase_access(m.types[i].relations[k].access)
                }
            }
        }),
{
    let back = model_from_json(j);
    assert forall|i: int| 0 <= i < m.types.len() implies {
        &&& (#[trigger] back.types[i]).identifier.name == m.types[i].identifier.name
        &&& back.types[i].relations.len() == m.types[i].relations.len()
        &&& forall|k: int| #![trigger m.types[i].relations[k]] 0 <= k < m.types[i].relations.len() ==> exists|q: int| {
            &&& 0 <= q < back.types[i].relations.len()
            &&& #[trigger] back.types[i].relations[q].identifier.name == m.types[i].relations[k].identifier.name
            &&& back.types[i].relations[q].access == erase_access(m.types[i].relations[k].access)
        }
    } by {
        lemma_checked_names_distinct(m, i);
        let rs = m.types[i].relations;
        let d = j.type_definitions[i];
        assert forall|k: int| #![trigger rs[k]] 0 <= k < rs.len() implies exists|q: int| {
            &&& 0 <= q < back.types[i].relations.len()
            &&& #[trigger] back.types[i].relations[q].identifier.name == rs[k].identifier.name
            &&& back.types[i].relations[q].access == erase_access(rs[k].access)
        } by {
            lemma_relation_table_distinct(rs, k);
            let n = rs[k].identifier.name;
            let tbl = relation_table(rs);
            assert(tbl.contains_key(n));
            let q = choose|q: int| 0 <= q < d.relations.len() && #[trigger] d.relations[q].0 == n;
            assert(tbl.contains_key(d.relations[q].0));
            lemma_access_read_back(rs[k].access);
            assert(back.types[i].relations[q].identifier.name == n);
        };
    };
}

} // verus!
