//! The abstract syntax tree of an authorization model, with a ghost view of
//! every node that the contracts of the rest of the crate speak of.

use vstd::prelude::*;
use crate::text::text_eq;

verus! {

/// A half-open byte range `[start, end)` into the source text.
#[derive(Debug, Clone, Copy, PartialEq, Eq, Structural)]
pub struct Span {
    pub start: usize,
    pub end: usize,
}

/// A name, with the span it was read from (absent when it was not parsed).
#[derive(Debug, PartialEq, Eq)]
pub struct Identifier {
    pub name: String,
    pub span: Option<Span>,
}

/// The membership rule of a relation.
#[derive(Debug, PartialEq, Eq)]
pub enum Access {
    Direct { span: Option<Span> },
    Computed { object: Identifier, relation: Identifier, span: Option<Span> },
    SelfComputed { relation: Identifier, span: Option<Span> },
    Union { children: Vec<Access>, span: Option<Span> },
    Intersection { children: Vec<Access>, span: Option<Span> },
    Difference { base: Box<Access>, subtract: Box<Access>, span: Option<Span> },
}

#[derive(Debug, PartialEq, Eq)]
pub struct Relation {
    pub identifier: Identifier,
    pub access: Access,
    pub span: Option<Span>,
}

#[derive(Debug, PartialEq, Eq)]
pub struct Type {
    pub identifier: Identifier,
    pub relations: Vec<Relation>,
    pub span: Option<Span>,
}

#[derive(Debug, PartialEq, Eq)]
pub struct AuthorizationModel {
    pub types: Vec<Type>,
}

pub ghost struct IdentifierView {
    pub name: Seq<char>,
    pub span: Option<Span>,
}

pub ghost enum AccessView {
    Direct { span: Option<Span> },
    Computed { object: IdentifierView, relation: IdentifierView, span: Option<Span> },
    SelfComputed { relation: IdentifierView, span: Option<Span> },
    Union { children: Seq<AccessView>, span: Option<Span> },
    Intersection { children: Seq<AccessView>, span: Option<Span> },
    Difference { base: Box<AccessView>, subtract: Box<AccessView>, span: Option<Span> },
}

pub ghost struct RelationView {
    pub identifier: IdentifierView,
    pub access: AccessView,
    pub span: Option<Span>,
}

pub ghost struct TypeView {
    pub identifier: IdentifierView,
    pub relations: Seq<RelationView>,
    pub span: Option<Span>,
}

pub ghost struct ModelView {
    pub types: Seq<TypeView>,
}

impl View for Identifier {
    type V = IdentifierView;

    open spec fn view(&self) -> IdentifierView {
        IdentifierView { name: self.name@, span: self.span }
    }
}

impl AccessView {
    pub open spec fn span(self) -> Option<Span> {
        match self {
            AccessView::Direct { span } => span,
            AccessView::Computed { span, .. } => span,
            AccessView::SelfComputed { span, .. } => span,
            AccessView::Union { span, .. } => span,
            AccessView::Intersection { span, .. } => span,
            AccessView::Difference { span, .. } => span,
        }
    }
}

/// The view of an access: the same tree, with `Seq` for `Vec` and `Seq<char>` for `String`.
pub open spec fn access_view(a: Access) -> AccessView
    decreases a,
{
    match a {
        Access::Direct { span } => AccessView::Direct { span: span },
        Access::Computed { object, relation, span } => AccessView::Computed {
            object: object@,
            relation: relation@,
            span: span,
        },
        Access::SelfComputed { relation, span } => AccessView::SelfComputed {
            relation: relation@,
            span: span,
        },
        Access::Union { children, span } => AccessView::Union {
            children: Seq::new(children@.len(), |i: int| if 0 <= i < children@.len() { access_view(children@[i]) } else { AccessView::Direct { span: None } }),
            span: span,
        },
        Access::Intersection { children, span } => AccessView::Intersection {
            children: Seq::new(children@.len(), |i: int| if 0 <= i < children@.len() { access_view(children@[i]) } else { AccessView::Direct { span: None } }),
            span: span,
        },
        Access::Difference { base, subtract, span } => AccessView::Difference {
            base: Box::new(access_view(*base)),
            subtract: Box::new(access_view(*subtract)),
            span: span,
        },
    }
}

impl View for Access {
    type V = AccessView;

    open spec fn view(&self) -> AccessView {
        access_view(*self)
    }
}

/// The views of a sequence of accesses, one for one.
pub open spec fn access_views(cs: Seq<Access>) -> Seq<AccessView> {
    Seq::new(cs.len(), |i: int| cs[i]@)
}

/// The children of a composite access view are the views of its children.
pub proof fn lemma_children_view(a: &Access)
    ensures
        a is Union ==> a@->Union_children == access_views(a->Union_children@),
        a is Intersection ==> a@->Intersection_children == access_views(a->Intersection_children@),
{
    match a {
        Access::Union { children, .. } => {
            let v = a@->Union_children;
            assert(v.len() == children@.len());
            assert forall|i: int| 0 <= i < v.len() implies v[i] == access_views(children@)[i] by {
                assert(v[i] == children@[i]@);
            };
            assert(v =~= access_views(children@));
        },
        Access::Intersection { children, .. } => {
            assert(a@->Intersection_children =~= access_views(children@));
        },
        _ => {},
    }
}

impl View for Relation {
    type V = RelationView;

    open spec fn view(&self) -> RelationView {
        RelationView { identifier: self.identifier@, access: self.access@, span: self.span }
    }
}

pub open spec fn relation_views(rs: Seq<Relation>) -> Seq<RelationView> {
    Seq::new(rs.len(), |i: int| rs[i]@)
}

impl View for Type {
    type V = TypeView;

    open spec fn view(&self) -> TypeView {
        TypeView {
            identifier: self.identifier@,
            relations: relation_views(self.relations@),
            span: self.span,
        }
    }
}

pub open spec fn type_views(ts: Seq<Type>) -> Seq<TypeView> {
    Seq::new(ts.len(), |i: int| ts[i]@)
}

impl View for AuthorizationModel {
    type V = ModelView;

    open spec fn view(&self) -> ModelView {
        ModelView { types: type_views(self.types@) }
    }
}

impl TypeView {
    /// Whether a relation of this type is named `name`.
    pub open spec fn has_relation(self, name: Seq<char>) -> bool {
        exists|k: int| 0 <= k < self.relations.len() && #[trigger] self.relations[k].identifier.name == name
    }
}

impl ModelView {
    /// Whether a type of this model is named `name`.
    pub open spec fn has_type(self, name: Seq<char>) -> bool {
        exists|k: int| 0 <= k < self.types.len() && #[trigger] self.types[k].identifier.name == name
    }

    /// Whether a type named `tname` has a relation named `relation_name`.
    pub open spec fn has_type_relation(self, tname: Seq<char>, relation_name: Seq<char>) -> bool {
        exists|k: int|
            0 <= k < self.types.len() && #[trigger] self.types[k].identifier.name == tname
                && self.types[k].has_relation(relation_name)
    }
}

impl Clone for Identifier {
    fn clone(&self) -> (r: Self)
        ensures
            r@ == self@,
    {
        Identifier { name: self.name.clone(), span: self.span }
    }
}

/// Copies of each access of `cs`, in order.
fn clone_all(cs: &Vec<Access>) -> (r: Vec<Access>)
    ensures
        access_views(r@) == access_views(cs@),
    decreases cs@, 0nat,
{
    let mut out: Vec<Access> = Vec::new();
    let mut i: usize = 0;
    while i < cs.len()
        invariant
            0 <= i <= cs@.len(),
            out@.len() == i,
            forall|k: int| 0 <= k < i ==> #[trigger] out@[k]@ == cs@[k]@,
        decreases cs@.len() - i,
    {
        assert(decreases_to!(cs@ => cs@[i as int]));
        out.push(cs[i].clone());
        i = i + 1;
    }
    assert(access_views(out@) =~= access_views(cs@));
    out
}

impl Clone for Access {
    fn clone(&self) -> (r: Self)
        ensures
            r@ == self@,
        decreases self,
    {
        match self {
            Access::Direct { span } => Access::Direct { span: *span },
            Access::Computed { object, relation, span } => Access::Computed {
                object: object.clone(),
                relation: relation.clone(),
                span: *span,
            },
            Access::SelfComputed { relation, span } => Access::SelfComputed {
                relation: relation.clone(),
                span: *span,
            },
            Access::Union { children, span } => {
                let c = clone_all(children);
                let r = Access::Union { children: c, span: *span };
                proof {
                    lemma_children_view(&r);
                    lemma_children_view(self);
                }
                r
            },
            Access::Intersection { children, span } => {
                let c = clone_all(children);
                let r = Access::Intersection { children: c, span: *span };
                proof {
                    lemma_children_view(&r);
                    lemma_children_view(self);
                }
                r
            },
            Access::Difference { base, subtract, span } => Access::Difference {
                base: Box::new((**base).clone()),
                subtract: Box::new((**subtract).clone()),
                span: *span,
            },
        }
    }
}

impl Clone for Relation {
    fn clone(&self) -> (r: Self)
        ensures
            r@ == self@,
    {
        Relation {
            identifier: self.identifier.clone(),
            access: self.access.clone(),
            span: self.span,
        }
    }
}

impl Clone for Type {
    fn clone(&self) -> (r: Self)
        ensures
            r@ == self@,
    {
        let mut rs: Vec<Relation> = Vec::new();
        let mut i: usize = 0;
        while i < self.relations.len()
            invariant
                0 <= i <= self.relations@.len(),
                rs@.len() == i,
                forall|k: int| 0 <= k < i ==> #[trigger] rs@[k]@ == self.relations@[k]@,
            decreases self.relations@.len() - i,
        {
            rs.push(self.relations[i].clone());
            i = i + 1;
        }
        let r = Type { identifier: self.identifier.clone(), relations: rs, span: self.span };
        assert(relation_views(rs@) =~= relation_views(self.relations@));
        r
    }
}

impl Type {
    /// Whether this type has a relation named `relation_name`.
    pub fn relation_exists(&self, relation_name: &str) -> (r: bool)
        ensures
            r == self@.has_relation(relation_name@),
    {
        let mut i: usize = 0;
        while i < self.relations.len()
            invariant
                0 <= i <= self.relations@.len(),
                forall|k: int| 0 <= k < i ==> self.relations@[k].identifier.name@ != relation_name@,
            decreases self.relations@.len() - i,
        {
            if text_eq(self.relations[i].identifier.name.as_str(), relation_name) {
                assert(self@.relations[i as int].identifier.name == relation_name@);
                return true;
            }
            i = i + 1;
        }
        assert(!self@.has_relation(relation_name@)) by {
            if self@.has_relation(relation_name@) {
                let k = choose|k: int| 0 <= k < self@.relations.len() && #[trigger] self@.relations[k].identifier.name == relation_name@;
                assert(self.relations@[k].identifier.name@ != relation_name@);
            }
        };
        false
    }
}

impl AuthorizationModel {
    /// Whether this model has a type named `tname`.
    pub fn type_exists(&self, tname: &str) -> (r: bool)
        ensures
            r == self@.has_type(tname@),
    {
        let mut i: usize = 0;
        while i < self.types.len()
            invariant
                0 <= i <= self.types@.len(),
                forall|k: int| 0 <= k < i ==> self.types@[k].identifier.name@ != tname@,
            decreases self.types@.len() - i,
        {
            if text_eq(self.types[i].identifier.name.as_str(), tname) {
                assert(self@.types[i as int].identifier.name == tname@);
                return true;
            }
            i = i + 1;
        }
        assert(!self@.has_type(tname@)) by {
            if self@.has_type(tname@) {
                let k = choose|k: int| 0 <= k < self@.types.len() && #[trigger] self@.types[k].identifier.name == tname@;
                assert(self.types@[k].identifier.name@ != tname@);
            }
        };
        false
    }

    /// Whether a type named `tname` has a relation named `relation_name`.
    pub fn type_relation_exists(&self, tname: &str, relation_name: &str) -> (r: bool)
        ensures
            r == self@.has_type_relation(tname@, relation_name@),
    {
        let mut i: usize = 0;
        while i < self.types.len()
            invariant
                0 <= i <= self.types@.len(),
                forall|k: int| 0 <= k < i ==> !(self.types@[k].identifier.name@ == tname@ && self.types@[k]@.has_relation(relation_name@)),
            decreases self.types@.len() - i,
        {
            if text_eq(self.types[i].identifier.name.as_str(), tname) && self.types[i].relation_exists(relation_name) {
                assert(self@.types[i as int].identifier.name == tname@ && self@.types[i as int].has_relation(relation_name@));
                return true;
            }
            i = i + 1;
        }
        assert(!self@.has_type_relation(tname@, relation_name@)) by {
            if self@.has_type_relation(tname@, relation_name@) {
                let k = choose|k: int| 0 <= k < self@.types.len() && #[trigger] self@.types[k].identifier.name == tname@ && self@.types[k].has_relation(relation_name@);
                assert(!(self.types@[k].identifier.name@ == tname@ && self.types@[k]@.has_relation(relation_name@)));
            }
        };
        false
    }
}

} // verus!
