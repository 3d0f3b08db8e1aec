//! Whether values of a type can be read.
use vstd::prelude::*;

use crate::names::lemma_name_index;
use crate::types::{among_parts, is_part, lemma_settle_step, lemma_type_settles, reached, resolved,
    settled, settle_steps, settles, type_settles, SchemaIndex, TypeExpr};

verus! {

/// How many of the first `n` marks are not set.
pub open spec fn unset(marks: Seq<bool>, n: nat) -> nat
    decreases n,
{
    if n == 0 || n > marks.len() {
        0
    } else {
        unset(marks, (n - 1) as nat) + (if marks[n - 1] {
            0nat
        } else {
            1nat
        })
    }
}

pub proof fn lemma_unset_drops(marks: Seq<bool>, i: int, n: nat)
    requires
        0 <= i < marks.len(),
        !marks[i],
        n <= marks.len(),
    ensures
        unset(marks.update(i, true), n) == unset(marks, n) - (if i < n {
            1int
        } else {
            0int
        }),
    decreases n,
{
    if n > 0 {
        lemma_unset_drops(marks, i, (n - 1) as nat);
    }
}

/// Marks for the names of an index, none of them set.
pub(crate) fn no_marks(schemas: &SchemaIndex) -> (r: Vec<bool>)
    ensures
        r@.len() == schemas.schemas.list().len(),
        forall|i: int| 0 <= i < r@.len() ==> !(#[trigger] r@[i]),
{
    let n: usize = schemas.schemas.len();
    let mut out: Vec<bool> = Vec::new();
    let mut i: usize = 0;
    while i < n
        invariant
            i <= n,
            out@.len() == i,
            forall|k: int| 0 <= k < i ==> !(#[trigger] out@[k]),
        decreases n - i,
    {
        out.push(false);
        i += 1;
    }
    out
}

/// Whether following references and options from a type ends.
fn chain_settles(schemas: &SchemaIndex, ty: &TypeExpr) -> (r: bool)
    ensures
        r == settled(schemas.map(), *ty),
{
    let ghost m = schemas.map();
    let ghost list = schemas.schemas.list();
    let entries = schemas.schemas.entries();
    let mut marks = no_marks(schemas);
    let mut at = ty;
    loop
        invariant
            m == schemas.map(),
            list == schemas.schemas.list(),
            entries@ == list,
            marks@.len() == list.len(),
            settled(m, *ty) <==> settled(m, *at),
            settled(m, *at) ==> forall|i: int|
                0 <= i < marks@.len() && (#[trigger] marks@[i]) ==> settle_steps(m, *at)
                    <= settle_steps(m, list[i].1),
        decreases unset(marks@, marks@.len()), *at,
    {
        let ghost here = *at;
        let name: &String = match at {
            TypeExpr::Ref(name) => name,
            TypeExpr::OptionOf(inner) => match &**inner {
                TypeExpr::Ref(name) => name,
                other => {
                    proof {
                        lemma_step(m, here, *other);
                        if settled(m, here) {
                            lemma_settle_step(m, here);
                        }
                    }
                    at = other;
                    continue ;
                },
            },
            _ => {
                assert(settles(m, *at, 0));
                return true;
            },
        };
        let i: usize = schemas.schemas.find(name.as_str());
        proof {
            lemma_name_index(list, name@);
        }
        if i >= entries.len() {
            assert(settles(m, here, 0));
            return true;
        }
        let target = &entries[i].1;
        proof {
            lemma_step(m, here, *target);
            if settled(m, here) {
                lemma_settle_step(m, here);
            }
        }
        if marks[i] {
            return false;
        }
        proof {
            lemma_unset_drops(marks@, i as int, marks@.len());
        }
        let ghost before = marks@;
        marks.set(i, true);
        assert(marks@ == before.update(i as int, true));
        at = target;
    }
}

/// A reference or an option settles just where what it stands for does.
proof fn lemma_step(m: Map<Seq<char>, TypeExpr>, ty: TypeExpr, next: TypeExpr)
    requires
        match ty {
            TypeExpr::Ref(_) => resolved(m, ty) == Some(next),
            TypeExpr::OptionOf(inner) => resolved(m, *inner) == Some(next),
            _ => false,
        },
    ensures
        settled(m, ty) <==> settled(m, next),
{
    if settled(m, ty) {
        let n = choose|n: nat| settles(m, ty, n);
        assert(settles(m, next, (n - 1) as nat));
    }
    if settled(m, next) {
        let n = choose|n: nat| settles(m, next, n);
        assert(settles(m, ty, n + 1));
    }
}

/// Whether a type is that of a name with a mark.
spec fn marked(list: Seq<(String, TypeExpr)>, marks: Seq<bool>, p: TypeExpr) -> bool {
    exists|i: int| 0 <= i < marks.len() && #[trigger] marks[i] && list[i].1 == p
}

/// Whether every type of a set settles, with parts that are in the set or have a mark.
spec fn closed_set(
    m: Map<Seq<char>, TypeExpr>,
    list: Seq<(String, TypeExpr)>,
    marks: Seq<bool>,
    seen: Set<TypeExpr>,
) -> bool {
    forall|t: TypeExpr| #[trigger]
        seen.contains(t) ==> settled(m, t) && forall|p: TypeExpr| #[trigger]
            is_part(m, t, p) ==> seen.contains(p) || marked(list, marks, p)
}

/// Marks and types have been added, the types of the new marks among them.
spec fn grew(
    list: Seq<(String, TypeExpr)>,
    a: Seq<bool>,
    b: Seq<bool>,
    seen: Set<TypeExpr>,
    more: Set<TypeExpr>,
) -> bool {
    &&& a.len() == b.len() == list.len()
    &&& forall|i: int| 0 <= i < a.len() && #[trigger] a[i] ==> b[i]
    &&& seen.subset_of(more)
    &&& unset(b, b.len()) <= unset(a, a.len())
}

/// Whether the types of the marks that are new are in a set.
spec fn kept(
    list: Seq<(String, TypeExpr)>,
    a: Seq<bool>,
    b: Seq<bool>,
    more: Set<TypeExpr>,
) -> bool {
    forall|i: int| 0 <= i < b.len() && #[trigger] b[i] && !a[i] ==> more.contains(list[i].1)
}

/// Looks at what a reference stands for, unless that was done.
fn visit(
    schemas: &SchemaIndex,
    ty: &TypeExpr,
    marks: &mut Vec<bool>,
    Ghost(seen): Ghost<Set<TypeExpr>>,
) -> (r: (bool, Ghost<Set<TypeExpr>>))
    requires
        ty is Ref,
        old(marks)@.len() == schemas.schemas.list().len(),
        closed_set(schemas.map(), schemas.schemas.list(), old(marks)@, seen),
    ensures
        grew(schemas.schemas.list(), old(marks)@, final(marks)@, seen, r.1@),
        r.0 ==> {
            &&& kept(schemas.schemas.list(), old(marks)@, final(marks)@, r.1@)
            &&& closed_set(schemas.map(), schemas.schemas.list(), final(marks)@, r.1@)
            &&& resolved(schemas.map(), *ty) matches Some(p) ==> r.1@.contains(p) || marked(
                schemas.schemas.list(),
                final(marks)@,
                p,
            )
        },
        !r.0 ==> (resolved(schemas.map(), *ty) matches Some(p) && !type_settles(schemas.map(), p)),
    decreases unset(old(marks)@, old(marks)@.len()), *ty, 0nat,
{
    let ghost m = schemas.map();
    let ghost list = schemas.schemas.list();
    let entries = schemas.schemas.entries();
    match ty {
        TypeExpr::Ref(name) => {
            let i: usize = schemas.schemas.find(name.as_str());
            proof {
                lemma_name_index(list, name@);
            }
            if i >= entries.len() {
                return (true, Ghost(seen));
            }
            if marks[i] {
                assert(marked(list, marks@, list[i as int].1));
                return (true, Ghost(seen));
            }
            let ghost before = marks@;
            proof {
                lemma_unset_drops(before, i as int, before.len());
            }
            marks.set(i, true);
            assert(marks@ == before.update(i as int, true));
            let ghost mid = marks@;
            proof {
                assert forall|t: TypeExpr| #[trigger] seen.contains(t) implies settled(m, t)
                    && forall|p: TypeExpr| #[trigger]
                    is_part(m, t, p) ==> seen.contains(p) || marked(list, mid, p) by {
                    assert forall|p: TypeExpr| #[trigger] is_part(m, t, p) implies seen.contains(p)
                        || marked(list, mid, p) by {
                        if marked(list, before, p) {
                            let k = choose|k: int|
                                0 <= k < before.len() && #[trigger] before[k] && list[k].1 == p;
                            assert(mid[k]);
                        }
                    }
                }
            }
            let (ok, more) = explore(schemas, &entries[i].1, marks, Ghost(seen));
            proof {
                assert forall|k: int| 0 <= k < before.len() && #[trigger] before[k] implies marks@[k] by {
                    assert(mid[k]);
                }
                if ok {
                    assert forall|k: int|
                        0 <= k < marks@.len() && #[trigger] marks@[k] && !before[k] implies more@.contains(
                        list[k].1,
                    ) by {
                        if k != i {
                            assert(!mid[k]);
                        }
                    }
                }
            }
            (ok, more)
        },
        _ => (true, Ghost(seen)),
    }
}

/// Looks at what a part of a type stands for.
fn explore_part(
    schemas: &SchemaIndex,
    ty: &TypeExpr,
    marks: &mut Vec<bool>,
    Ghost(seen): Ghost<Set<TypeExpr>>,
) -> (r: (bool, Ghost<Set<TypeExpr>>))
    requires
        old(marks)@.len() == schemas.schemas.list().len(),
        closed_set(schemas.map(), schemas.schemas.list(), old(marks)@, seen),
    ensures
        grew(schemas.schemas.list(), old(marks)@, final(marks)@, seen, r.1@),
        r.0 ==> {
            &&& kept(schemas.schemas.list(), old(marks)@, final(marks)@, r.1@)
            &&& closed_set(schemas.map(), schemas.schemas.list(), final(marks)@, r.1@)
            &&& resolved(schemas.map(), *ty) matches Some(p) ==> r.1@.contains(p) || marked(
                schemas.schemas.list(),
                final(marks)@,
                p,
            )
        },
        !r.0 ==> (resolved(schemas.map(), *ty) matches Some(p) && !type_settles(schemas.map(), p)),
    decreases unset(old(marks)@, old(marks)@.len()), *ty, 2nat,
{
    match ty {
        TypeExpr::Ref(_) => visit(schemas, ty, marks, Ghost(seen)),
        _ => explore(schemas, ty, marks, Ghost(seen)),
    }
}

/// Looks at the parts of a record or a variant.
fn explore_parts(
    schemas: &SchemaIndex,
    Ghost(ty): Ghost<TypeExpr>,
    parts: &Vec<(String, TypeExpr)>,
    marks: &mut Vec<bool>,
    Ghost(seen): Ghost<Set<TypeExpr>>,
) -> (r: (bool, Ghost<Set<TypeExpr>>))
    requires
        ty == TypeExpr::Record(*parts) || ty == TypeExpr::Variant(*parts),
        old(marks)@.len() == schemas.schemas.list().len(),
        closed_set(schemas.map(), schemas.schemas.list(), old(marks)@, seen),
    ensures
        grew(schemas.schemas.list(), old(marks)@, final(marks)@, seen, r.1@),
        r.0 ==> {
            &&& kept(schemas.schemas.list(), old(marks)@, final(marks)@, r.1@)
            &&& closed_set(schemas.map(), schemas.schemas.list(), final(marks)@, r.1@)
            &&& forall|p: TypeExpr| #[trigger]
                among_parts(schemas.map(), parts@, p) ==> r.1@.contains(p) || marked(
                    schemas.schemas.list(),
                    final(marks)@,
                    p,
                )
        },
        !r.0 ==> exists|p: TypeExpr| #[trigger]
            among_parts(schemas.map(), parts@, p) && !type_settles(schemas.map(), p),
    decreases unset(old(marks)@, old(marks)@.len()), ty, 0nat,
{
    let ghost m = schemas.map();
    let ghost list = schemas.schemas.list();
    let ghost first = marks@;
    let ghost mut found = seen;
    let mut i: usize = 0;
    while i < parts.len()
        invariant
            i <= parts@.len(),
            m == schemas.map(),
            list == schemas.schemas.list(),
            first == old(marks)@,
            ty == TypeExpr::Record(*parts) || ty == TypeExpr::Variant(*parts),
            grew(list, first, marks@, seen, found),
            kept(list, first, marks@, found),
            closed_set(m, list, marks@, found),
            forall|k: int|
                #![trigger parts@[k]]
                0 <= k < i ==> (resolved(m, parts@[k].1) matches Some(p) ==> found.contains(p)
                    || marked(list, marks@, p)),
        decreases parts@.len() - i,
    {
        let ghost known = found;
        let ghost before = marks@;
        proof {
            let one = parts@[i as int];
            assert(decreases_to!(*parts => parts@));
            assert(decreases_to!(parts@ => one));
            assert(decreases_to!(one => one.1));
            if ty is Record {
                assert(decreases_to!(ty => ty->Record_0));
            } else {
                assert(decreases_to!(ty => ty->Variant_0));
            }
        }
        let (ok, more) = explore_part(schemas, &parts[i].1, marks, Ghost(found));
        if !ok {
            assert(among_parts(m, parts@, resolved(m, parts@[i as int].1)->0));
            return (false, more);
        }
        proof {
            found = more@;
            lemma_grew(list, first, before, marks@, seen, known, found);
            assert forall|k: int| #![trigger parts@[k]] 0 <= k < i + 1 implies (resolved(
                m,
                parts@[k].1,
            ) matches Some(p) ==> found.contains(p) || marked(list, marks@, p)) by {
                if k < i && resolved(m, parts@[k].1) is Some {
                    lemma_marked(list, before, marks@, resolved(m, parts@[k].1)->0);
                }
            }
        }
        i += 1;
    }
    (true, Ghost(found))
}

proof fn lemma_marked(list: Seq<(String, TypeExpr)>, a: Seq<bool>, b: Seq<bool>, p: TypeExpr)
    requires
        a.len() == b.len(),
        forall|i: int| 0 <= i < a.len() && #[trigger] a[i] ==> b[i],
    ensures
        marked(list, a, p) ==> marked(list, b, p),
{
    if marked(list, a, p) {
        let k = choose|k: int| 0 <= k < a.len() && #[trigger] a[k] && list[k].1 == p;
        assert(b[k]);
    }
}

proof fn lemma_grew(
    list: Seq<(String, TypeExpr)>,
    a: Seq<bool>,
    b: Seq<bool>,
    c: Seq<bool>,
    x: Set<TypeExpr>,
    y: Set<TypeExpr>,
    z: Set<TypeExpr>,
)
    requires
        grew(list, a, b, x, y),
        kept(list, a, b, y),
        grew(list, b, c, y, z),
        kept(list, b, c, z),
    ensures
        grew(list, a, c, x, z),
        kept(list, a, c, z),
{
    assert forall|i: int| 0 <= i < a.len() && #[trigger] a[i] implies c[i] by {
        assert(b[i]);
    }
    assert forall|i: int| 0 <= i < c.len() && #[trigger] c[i] && !a[i] implies z.contains(
        list[i].1,
    ) by {
        if b[i] {
            assert(y.contains(list[i].1));
        }
    }
}

/// Looks at a type and at its parts.
fn explore(
    schemas: &SchemaIndex,
    ty: &TypeExpr,
    marks: &mut Vec<bool>,
    Ghost(seen): Ghost<Set<TypeExpr>>,
) -> (r: (bool, Ghost<Set<TypeExpr>>))
    requires
        old(marks)@.len() == schemas.schemas.list().len(),
        closed_set(schemas.map(), schemas.schemas.list(), old(marks)@, seen),
    ensures
        grew(schemas.schemas.list(), old(marks)@, final(marks)@, seen, r.1@),
        r.0 ==> {
            &&& kept(schemas.schemas.list(), old(marks)@, final(marks)@, r.1@)
            &&& closed_set(schemas.map(), schemas.schemas.list(), final(marks)@, r.1@)
            &&& r.1@.contains(*ty)
        },
        !r.0 ==> !type_settles(schemas.map(), *ty),
    decreases unset(old(marks)@, old(marks)@.len()), *ty, 1nat,
{
    let ghost m = schemas.map();
    let ghost list = schemas.schemas.list();
    proof {
        if type_settles(m, *ty) {
            lemma_type_settles(m, *ty);
        }
    }
    if !chain_settles(schemas, ty) {
        return (false, Ghost(seen));
    }
    let (ok, more) = match ty {
        TypeExpr::Primitive(_) => (true, Ghost(seen)),
        TypeExpr::SetOf(_) => (true, Ghost(seen)),
        TypeExpr::Record(fields) => explore_parts(schemas, Ghost(*ty), fields, marks, Ghost(seen)),
        TypeExpr::Variant(arms) => explore_parts(schemas, Ghost(*ty), arms, marks, Ghost(seen)),
        TypeExpr::List(t) => explore_part(schemas, t, marks, Ghost(seen)),
        TypeExpr::Mapping(_, t) => explore_part(schemas, t, marks, Ghost(seen)),
        TypeExpr::OptionOf(t) => explore_part(schemas, t, marks, Ghost(seen)),
        TypeExpr::Ref(_) => visit(schemas, ty, marks, Ghost(seen)),
    };
    if !ok {
        proof {
            if type_settles(m, *ty) {
                match ty {
                    TypeExpr::Record(fields) => {
                        let q = choose|p: TypeExpr| #[trigger]
                            among_parts(m, fields@, p) && !type_settles(m, p);
                        assert(is_part(m, *ty, q));
                    },
                    TypeExpr::Variant(arms) => {
                        let q = choose|p: TypeExpr| #[trigger]
                            among_parts(m, arms@, p) && !type_settles(m, p);
                        assert(is_part(m, *ty, q));
                    },
                    TypeExpr::List(t) => assert(is_part(m, *ty, resolved(m, **t)->0)),
                    TypeExpr::Mapping(_, t) => assert(is_part(m, *ty, resolved(m, **t)->0)),
                    TypeExpr::OptionOf(t) => assert(is_part(m, *ty, resolved(m, **t)->0)),
                    _ => assert(is_part(m, *ty, resolved(m, *ty)->0)),
                }
            }
        }
        return (false, more);
    }
    let ghost all = more@.insert(*ty);
    proof {
        assert forall|t: TypeExpr| #[trigger] all.contains(t) implies settled(m, t) && forall|
            p: TypeExpr,
        | #[trigger]
            is_part(m, t, p) ==> all.contains(p) || marked(list, marks@, p) by {
            assert forall|p: TypeExpr| #[trigger] is_part(m, t, p) implies all.contains(p) || marked(
                list,
                marks@,
                p,
            ) by {
                if t != *ty {
                    assert(more@.contains(t));
                }
            }
            if t != *ty {
                assert(more@.contains(t));
            }
        }
    }
    (true, Ghost(all))
}

/// Where the types of all marks are in a closed set, what is come to from the set is in it.
proof fn lemma_closed_settles(
    m: Map<Seq<char>, TypeExpr>,
    list: Seq<(String, TypeExpr)>,
    marks: Seq<bool>,
    seen: Set<TypeExpr>,
    ty: TypeExpr,
    p: TypeExpr,
    n: nat,
)
    requires
        closed_set(m, list, marks, seen),
        forall|i: int| 0 <= i < marks.len() && #[trigger] marks[i] ==> seen.contains(list[i].1),
        seen.contains(ty),
        reached(m, ty, p, n),
    ensures
        settled(m, p),
    decreases n,
{
    if n > 0 {
        let q = choose|q: TypeExpr| #[trigger]
            is_part(m, ty, q) && reached(m, q, p, (n - 1) as nat);
        assert(seen.contains(q));
        lemma_closed_settles(m, list, marks, seen, q, p, (n - 1) as nat);
    }
}

impl SchemaIndex {
    /// Whether values of a type can be read.
    pub fn settles(&self, ty: &TypeExpr) -> (r: bool)
        ensures
            r == type_settles(self.map(), *ty),
    {
        let mut marks = no_marks(self);
        let ghost first = marks@;
        let (ok, seen) = explore(self, ty, &mut marks, Ghost(Set::empty()));
        proof {
            if ok {
                let m = self.map();
                let list = self.schemas.list();
                assert forall|i: int| 0 <= i < marks@.len() && #[trigger] marks@[i] implies seen@.contains(
                    list[i].1,
                ) by {
                    assert(!first[i]);
                }
                assert forall|p: TypeExpr, n: nat| #[trigger] reached(m, *ty, p, n) implies settled(
                    m,
                    p,
                ) by {
                    lemma_closed_settles(m, list, marks@, seen@, *ty, p, n);
                }
            }
        }
        ok
    }
}

} // verus!
