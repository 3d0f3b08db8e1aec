//! Types of values, and the index of named types.
use vstd::prelude::*;

use crate::names::NameMap;

pub mod decide;

verus! {

#[derive(Clone, Copy, Debug, PartialEq, Eq, Structural)]
pub enum TypePrimitive {
    Bool,
    Int,
    Nat,
    Dec128,
    Bytes,
    Text,
    Time,
    Duration,
    Hash,
    Uuid,
    Unit,
}

#[derive(Clone, Copy, Debug, PartialEq, Eq, Structural)]
pub enum TypeMapKey {
    Int,
    Nat,
    Text,
    Uuid,
    Hash,
}

/// A type. The fields of a record and the arms of a variant keep their order; a reference names a
/// type of the index.
#[derive(Debug)]
pub enum TypeExpr {
    Primitive(TypePrimitive),
    Record(Vec<(String, TypeExpr)>),
    Variant(Vec<(String, TypeExpr)>),
    List(Box<TypeExpr>),
    SetOf(Box<TypeExpr>),
    Mapping(TypeMapKey, Box<TypeExpr>),
    OptionOf(Box<TypeExpr>),
    Ref(String),
}

/// The model of a type.
pub enum TypeTree {
    Primitive(TypePrimitive),
    Record(Seq<(Seq<char>, TypeTree)>),
    Variant(Seq<(Seq<char>, TypeTree)>),
    List(Box<TypeTree>),
    SetOf(Box<TypeTree>),
    Mapping(TypeMapKey, Box<TypeTree>),
    OptionOf(Box<TypeTree>),
    Ref(Seq<char>),
}

impl TypeExpr {
    pub open spec fn tree(self) -> TypeTree
        decreases self,
    {
        match self {
            TypeExpr::Primitive(p) => TypeTree::Primitive(p),
            TypeExpr::Record(fields) => TypeTree::Record(
                Seq::new(
                    fields@.len(),
                    |i: int|
                        if 0 <= i < fields@.len() {
                            (fields@[i].0@, fields@[i].1.tree())
                        } else {
                            (Seq::empty(), TypeTree::Primitive(TypePrimitive::Unit))
                        },
                ),
            ),
            TypeExpr::Variant(arms) => TypeTree::Variant(
                Seq::new(
                    arms@.len(),
                    |i: int|
                        if 0 <= i < arms@.len() {
                            (arms@[i].0@, arms@[i].1.tree())
                        } else {
                            (Seq::empty(), TypeTree::Primitive(TypePrimitive::Unit))
                        },
                ),
            ),
            TypeExpr::List(t) => TypeTree::List(Box::new((*t).tree())),
            TypeExpr::SetOf(t) => TypeTree::SetOf(Box::new((*t).tree())),
            TypeExpr::Mapping(k, t) => TypeTree::Mapping(k, Box::new((*t).tree())),
            TypeExpr::OptionOf(t) => TypeTree::OptionOf(Box::new((*t).tree())),
            TypeExpr::Ref(name) => TypeTree::Ref(name@),
        }
    }
}

/// The models of named types.
pub open spec fn part_trees(parts: Seq<(String, TypeExpr)>) -> Seq<(Seq<char>, TypeTree)> {
    Seq::new(parts.len(), |i: int| (parts[i].0@, parts[i].1.tree()))
}

pub proof fn lemma_parts_tree(t: TypeExpr)
    ensures
        t matches TypeExpr::Record(fields) ==> t.tree() == TypeTree::Record(part_trees(fields@)),
        t matches TypeExpr::Variant(arms) ==> t.tree() == TypeTree::Variant(part_trees(arms@)),
{
    match t {
        TypeExpr::Record(fields) => {
            assert(t.tree()->Record_0 =~= part_trees(fields@));
        },
        TypeExpr::Variant(arms) => {
            assert(t.tree()->Variant_0 =~= part_trees(arms@));
        },
        _ => {},
    }
}

/// The models of the types of an index.
pub open spec fn index_trees(m: Map<Seq<char>, TypeExpr>) -> Map<Seq<char>, TypeTree> {
    m.map_values(|t: TypeExpr| t.tree())
}

/// The named types of a manifest.
#[derive(Debug)]
pub struct SchemaIndex {
    pub schemas: NameMap<TypeExpr>,
}

impl SchemaIndex {
    pub open spec fn map(&self) -> Map<Seq<char>, TypeExpr> {
        self.schemas.map()
    }

    /// The type named `name`.
    pub fn get(&self, name: &str) -> (r: Option<&TypeExpr>)
        ensures
            match r {
                Some(t) => self.map().contains_key(name@) && self.map()[name@] == *t,
                None => !self.map().contains_key(name@),
            },
    {
        self.schemas.get(name)
    }
}

/// The type that a type stands for: the target of a reference, else the type itself. A reference
/// without a target stands for none.
pub open spec fn resolved(m: Map<Seq<char>, TypeExpr>, ty: TypeExpr) -> Option<TypeExpr> {
    match ty {
        TypeExpr::Ref(name) => if m.contains_key(name@) {
            Some(m[name@])
        } else {
            None
        },
        _ => Some(ty),
    }
}

/// Whether following references and options from `ty` ends within `n` steps.
pub open spec fn settles(m: Map<Seq<char>, TypeExpr>, ty: TypeExpr, n: nat) -> bool
    decreases n,
{
    match ty {
        TypeExpr::Ref(name) => m.contains_key(name@) ==> n > 0 && settles(
            m,
            m[name@],
            (n - 1) as nat,
        ),
        TypeExpr::OptionOf(inner) => match resolved(m, *inner) {
            Some(t) => n > 0 && settles(m, t, (n - 1) as nat),
            None => true,
        },
        _ => true,
    }
}

/// Whether following references and options from `ty` ends.
pub open spec fn settled(m: Map<Seq<char>, TypeExpr>, ty: TypeExpr) -> bool {
    exists|n: nat| settles(m, ty, n)
}

/// Whether `p` is what one of the parts of a record or a variant stands for.
pub open spec fn among_parts(
    m: Map<Seq<char>, TypeExpr>,
    parts: Seq<(String, TypeExpr)>,
    p: TypeExpr,
) -> bool {
    exists|i: int| 0 <= i < parts.len() && resolved(m, (#[trigger] parts[i]).1) == Some(p)
}

/// Whether values of `ty`, or parts of them, are read as values of `p`.
pub open spec fn is_part(m: Map<Seq<char>, TypeExpr>, ty: TypeExpr, p: TypeExpr) -> bool {
    match ty {
        TypeExpr::Primitive(_) => false,
        TypeExpr::SetOf(_) => false,
        TypeExpr::Record(fields) => among_parts(m, fields@, p),
        TypeExpr::Variant(arms) => among_parts(m, arms@, p),
        TypeExpr::List(t) => resolved(m, *t) == Some(p),
        TypeExpr::Mapping(_, t) => resolved(m, *t) == Some(p),
        TypeExpr::OptionOf(t) => resolved(m, *t) == Some(p),
        TypeExpr::Ref(_) => resolved(m, ty) == Some(p),
    }
}

/// Whether `p` is come to from `ty` by `n` steps to a part.
pub open spec fn reached(
    m: Map<Seq<char>, TypeExpr>,
    ty: TypeExpr,
    p: TypeExpr,
    n: nat,
) -> bool
    decreases n,
{
    if n == 0 {
        p == ty
    } else {
        exists|q: TypeExpr| #[trigger] is_part(m, ty, q) && reached(m, q, p, (n - 1) as nat)
    }
}

/// Whether values of `ty` can be read: no chain of references and options that is come to from
/// `ty` runs in a circle.
pub open spec fn type_settles(m: Map<Seq<char>, TypeExpr>, ty: TypeExpr) -> bool {
    forall|p: TypeExpr, n: nat| #[trigger] reached(m, ty, p, n) ==> settled(m, p)
}

/// What can be read settles, and so do its parts.
pub proof fn lemma_type_settles(m: Map<Seq<char>, TypeExpr>, ty: TypeExpr)
    requires
        type_settles(m, ty),
    ensures
        settled(m, ty),
        forall|q: TypeExpr| #[trigger] is_part(m, ty, q) ==> type_settles(m, q),
{
    assert(reached(m, ty, ty, 0));
    assert forall|q: TypeExpr| #[trigger] is_part(m, ty, q) implies type_settles(m, q) by {
        assert forall|p: TypeExpr, n: nat| #[trigger] reached(m, q, p, n) implies settled(m, p) by {
            assert(reached(m, ty, p, n + 1));
        }
    }
}

/// With more steps allowed a type still settles.
pub proof fn lemma_settles_more(m: Map<Seq<char>, TypeExpr>, ty: TypeExpr, n: nat, k: nat)
    requires
        settles(m, ty, n),
        n <= k,
    ensures
        settles(m, ty, k),
    decreases n,
{
    match ty {
        TypeExpr::Ref(name) => {
            if m.contains_key(name@) {
                lemma_settles_more(m, m[name@], (n - 1) as nat, (k - 1) as nat);
            }
        },
        TypeExpr::OptionOf(inner) => {
            match resolved(m, *inner) {
                Some(t) => {
                    lemma_settles_more(m, t, (n - 1) as nat, (k - 1) as nat);
                },
                None => {},
            }
        },
        _ => {},
    }
}

/// The least number of steps not above `n` within which `ty` settles.
pub open spec fn least_steps(m: Map<Seq<char>, TypeExpr>, ty: TypeExpr, n: nat) -> nat
    decreases n,
{
    if n == 0 {
        0
    } else if settles(m, ty, (n - 1) as nat) {
        least_steps(m, ty, (n - 1) as nat)
    } else {
        n
    }
}

/// The least number of steps within which `ty` settles.
pub open spec fn settle_steps(m: Map<Seq<char>, TypeExpr>, ty: TypeExpr) -> nat {
    least_steps(m, ty, choose|n: nat| settles(m, ty, n))
}

proof fn lemma_least_steps(m: Map<Seq<char>, TypeExpr>, ty: TypeExpr, n: nat)
    requires
        settles(m, ty, n),
    ensures
        settles(m, ty, least_steps(m, ty, n)),
        least_steps(m, ty, n) > 0 ==> !settles(m, ty, (least_steps(m, ty, n) - 1) as nat),
    decreases n,
{
    if n > 0 && settles(m, ty, (n - 1) as nat) {
        lemma_least_steps(m, ty, (n - 1) as nat);
    }
}

/// What `settle_steps` is.
pub proof fn lemma_settle_steps(m: Map<Seq<char>, TypeExpr>, ty: TypeExpr)
    requires
        settled(m, ty),
    ensures
        settles(m, ty, settle_steps(m, ty)),
        forall|k: nat| settles(m, ty, k) ==> settle_steps(m, ty) <= k,
{
    let n = choose|n: nat| settles(m, ty, n);
    lemma_least_steps(m, ty, n);
    let s = settle_steps(m, ty);
    assert forall|k: nat| settles(m, ty, k) implies s <= k by {
        if k < s {
            lemma_settles_more(m, ty, k, (s - 1) as nat);
        }
    }
}

/// One step from a reference or an option leaves fewer steps to go.
pub proof fn lemma_settle_step(m: Map<Seq<char>, TypeExpr>, ty: TypeExpr)
    requires
        settled(m, ty),
    ensures
        ty matches TypeExpr::Ref(name) ==> m.contains_key(name@) ==> settled(m, m[name@])
            && settle_steps(m, m[name@]) < settle_steps(m, ty),
        ty matches TypeExpr::OptionOf(inner) ==> resolved(m, *inner) is Some ==> settled(
            m,
            resolved(m, *inner)->0,
        ) && settle_steps(m, resolved(m, *inner)->0) < settle_steps(m, ty),
{
    lemma_settle_steps(m, ty);
    match ty {
        TypeExpr::Ref(name) => {
            if m.contains_key(name@) {
                assert(settles(m, m[name@], (settle_steps(m, ty) - 1) as nat));
                lemma_settle_steps(m, m[name@]);
            }
        },
        TypeExpr::OptionOf(inner) => {
            match resolved(m, *inner) {
                Some(t) => {
                    assert(settles(m, t, (settle_steps(m, ty) - 1) as nat));
                    lemma_settle_steps(m, t);
                },
                None => {},
            }
        },
        _ => {},
    }
}

} // verus!
