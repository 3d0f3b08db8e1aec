//! Schemas of capabilities with the named types filled in.
use vstd::prelude::*;

use crate::error::{is_manifest_error, KernelError};
use crate::names::lemma_name_index;
use crate::text::{join3, join5};
use crate::types::decide::{lemma_unset_drops, no_marks, unset};
use crate::types::{index_trees, lemma_parts_tree, part_trees, SchemaIndex, TypeExpr, TypeTree};

verus! {

/// Whether filling in the references in `ty` ends within `n` levels.
pub open spec fn expands(m: Map<Seq<char>, TypeTree>, ty: TypeTree, n: nat) -> bool
    decreases n, ty,
{
    match ty {
        TypeTree::Primitive(_) => true,
        TypeTree::Record(fields) => forall|i: int|
            0 <= i < fields.len() ==> expands(m, (#[trigger] fields[i]).1, n),
        TypeTree::Variant(arms) => forall|i: int|
            0 <= i < arms.len() ==> expands(m, (#[trigger] arms[i]).1, n),
        TypeTree::List(t) => expands(m, *t, n),
        TypeTree::SetOf(t) => expands(m, *t, n),
        TypeTree::Mapping(_, t) => expands(m, *t, n),
        TypeTree::OptionOf(t) => expands(m, *t, n),
        TypeTree::Ref(name) => m.contains_key(name) ==> n > 0 && expands(
            m,
            m[name],
            (n - 1) as nat,
        ),
    }
}

/// Whether the references in `ty` can be filled in: none runs in a circle.
pub open spec fn can_expand(m: Map<Seq<char>, TypeTree>, ty: TypeTree) -> bool {
    exists|n: nat| expands(m, ty, n)
}

/// The type with its references filled in, or the text of the error for the first that has no
/// target. `context` says where in a schema the type stands.
pub open spec fn expanded(
    m: Map<Seq<char>, TypeTree>,
    ty: TypeTree,
    context: Seq<char>,
    n: nat,
) -> Result<TypeTree, Seq<char>>
    decreases n, ty, 0nat,
{
    match ty {
        TypeTree::Primitive(_) => Ok(ty),
        TypeTree::Record(fields) => match parts_expanded(
            m,
            fields,
            context + "."@,
            fields.len(),
            n,
        ) {
            Ok(s) => Ok(TypeTree::Record(s)),
            Err(e) => Err(e),
        },
        TypeTree::Variant(arms) => match parts_expanded(m, arms, context + "::"@, arms.len(), n) {
            Ok(s) => Ok(TypeTree::Variant(s)),
            Err(e) => Err(e),
        },
        TypeTree::List(t) => match expanded(m, *t, context, n) {
            Ok(x) => Ok(TypeTree::List(Box::new(x))),
            Err(e) => Err(e),
        },
        TypeTree::SetOf(t) => match expanded(m, *t, context, n) {
            Ok(x) => Ok(TypeTree::SetOf(Box::new(x))),
            Err(e) => Err(e),
        },
        TypeTree::Mapping(k, t) => match expanded(m, *t, context, n) {
            Ok(x) => Ok(TypeTree::Mapping(k, Box::new(x))),
            Err(e) => Err(e),
        },
        TypeTree::OptionOf(t) => match expanded(m, *t, context, n) {
            Ok(x) => Ok(TypeTree::OptionOf(Box::new(x))),
            Err(e) => Err(e),
        },
        TypeTree::Ref(name) => if !m.contains_key(name) {
            Err("schema '"@ + name + "' referenced by "@ + context + " not found"@)
        } else if n == 0 {
            Ok(ty)
        } else {
            expanded(m, m[name], name, (n - 1) as nat)
        },
    }
}

/// The first `k` fields or arms filled in; `head` is what the context of each starts with.
pub open spec fn parts_expanded(
    m: Map<Seq<char>, TypeTree>,
    parts: Seq<(Seq<char>, TypeTree)>,
    head: Seq<char>,
    k: nat,
    n: nat,
) -> Result<Seq<(Seq<char>, TypeTree)>, Seq<char>>
    decreases n, parts, k,
{
    if k == 0 || k > parts.len() {
        Ok(Seq::empty())
    } else {
        match parts_expanded(m, parts, head, (k - 1) as nat, n) {
            Err(e) => Err(e),
            Ok(done) => match expanded(m, parts[k - 1].1, head + parts[k - 1].0, n) {
                Err(e) => Err(e),
                Ok(t) => Ok(done.push((parts[k - 1].0, t))),
            },
        }
    }
}

proof fn lemma_parts_fault(
    m: Map<Seq<char>, TypeTree>,
    parts: Seq<(Seq<char>, TypeTree)>,
    head: Seq<char>,
    k: nat,
    j: nat,
    n: nat,
)
    requires
        k <= j <= parts.len(),
        parts_expanded(m, parts, head, k, n) is Err,
    ensures
        parts_expanded(m, parts, head, j, n) == parts_expanded(m, parts, head, k, n),
    decreases j,
{
    if k < j {
        lemma_parts_fault(m, parts, head, k, (j - 1) as nat, n);
    }
}

/// How many levels are allowed makes no difference once they are enough.
pub proof fn lemma_expanded_more(
    m: Map<Seq<char>, TypeTree>,
    ty: TypeTree,
    context: Seq<char>,
    n: nat,
    k: nat,
)
    requires
        expands(m, ty, n),
        n <= k,
    ensures
        expands(m, ty, k),
        expanded(m, ty, context, k) == expanded(m, ty, context, n),
    decreases n, ty, 0nat,
{
    match ty {
        TypeTree::Record(fields) => {
            lemma_parts_more(m, fields, context + "."@, fields.len(), n, k);
        },
        TypeTree::Variant(arms) => {
            lemma_parts_more(m, arms, context + "::"@, arms.len(), n, k);
        },
        TypeTree::List(t) => lemma_expanded_more(m, *t, context, n, k),
        TypeTree::SetOf(t) => lemma_expanded_more(m, *t, context, n, k),
        TypeTree::Mapping(_, t) => lemma_expanded_more(m, *t, context, n, k),
        TypeTree::OptionOf(t) => lemma_expanded_more(m, *t, context, n, k),
        TypeTree::Ref(name) => {
            if m.contains_key(name) {
                lemma_expanded_more(m, m[name], name, (n - 1) as nat, (k - 1) as nat);
            }
        },
        _ => {},
    }
}

proof fn lemma_parts_more(
    m: Map<Seq<char>, TypeTree>,
    parts: Seq<(Seq<char>, TypeTree)>,
    head: Seq<char>,
    j: nat,
    n: nat,
    k: nat,
)
    requires
        j <= parts.len(),
        forall|i: int| 0 <= i < parts.len() ==> expands(m, (#[trigger] parts[i]).1, n),
        n <= k,
    ensures
        forall|i: int| 0 <= i < j ==> expands(m, (#[trigger] parts[i]).1, k),
        parts_expanded(m, parts, head, j, k) == parts_expanded(m, parts, head, j, n),
    decreases n, parts, j,
{
    if j > 0 {
        lemma_parts_more(m, parts, head, (j - 1) as nat, n, k);
        assert(expands(m, parts[j - 1].1, n));
        lemma_expanded_more(m, parts[j - 1].1, head + parts[j - 1].0, n, k);
    }
}

fn expand_parts(
    parts: &Vec<(String, TypeExpr)>,
    schema_index: &SchemaIndex,
    context: &str,
    separator: &str,
    Ghost(n): Ghost<nat>,
) -> (r: Result<Vec<(String, TypeExpr)>, KernelError>)
    requires
        forall|i: int|
            0 <= i < parts@.len() ==> expands(
                index_trees(schema_index.map()),
                (#[trigger] parts@[i]).1.tree(),
                n,
            ),
    ensures
        match (
            r,
            parts_expanded(
                index_trees(schema_index.map()),
                part_trees(parts@),
                context@ + separator@,
                parts@.len(),
                n,
            ),
        ) {
            (Ok(v), Ok(s)) => part_trees(v@) == s,
            (Err(e), Err(t)) => is_manifest_error(e, t),
            _ => false,
        },
    decreases n, parts, 0nat,
{
    let ghost m = index_trees(schema_index.map());
    let ghost all = part_trees(parts@);
    let ghost head = context@ + separator@;
    let mut out: Vec<(String, TypeExpr)> = Vec::new();
    let mut i: usize = 0;
    assert(part_trees(out@) =~= Seq::empty());
    while i < parts.len()
        invariant
            i <= parts@.len(),
            m == index_trees(schema_index.map()),
            all == part_trees(parts@),
            head == context@ + separator@,
            parts_expanded(m, all, head, i as nat, n) == Ok::<_, Seq<char>>(part_trees(out@)),
            forall|i: int|
                0 <= i < parts@.len() ==> expands(m, (#[trigger] parts@[i]).1.tree(), n),
        decreases parts@.len() - i,
    {
        assert(decreases_to!(parts => parts@[i as int].1));
        assert(all[i as int] == (parts@[i as int].0@, parts@[i as int].1.tree()));
        let nested = join3(context, separator, parts[i].0.as_str());
        assert(nested@ == head + parts@[i as int].0@);
        match expand_type(&parts[i].1, schema_index, nested.as_str(), Ghost(n)) {
            Ok(t) => {
                let ghost before = out@;
                out.push((parts[i].0.clone(), t));
                assert(part_trees(out@) =~= part_trees(before).push((all[i as int].0, t.tree())));
            },
            Err(e) => {
                proof {
                    lemma_parts_fault(m, all, head, (i + 1) as nat, all.len(), n);
                }
                return Err(e);
            },
        }
        i += 1;
    }
    Ok(out)
}

fn expand_type(
    schema: &TypeExpr,
    schema_index: &SchemaIndex,
    context: &str,
    Ghost(n): Ghost<nat>,
) -> (r: Result<TypeExpr, KernelError>)
    requires
        expands(index_trees(schema_index.map()), schema.tree(), n),
    ensures
        match (r, expanded(index_trees(schema_index.map()), schema.tree(), context@, n)) {
            (Ok(v), Ok(t)) => v.tree() == t,
            (Err(e), Err(t)) => is_manifest_error(e, t),
            _ => false,
        },
    decreases n, schema, 1nat,
{
    let ghost m = index_trees(schema_index.map());
    proof {
        lemma_parts_tree(*schema);
    }
    match schema {
        TypeExpr::Primitive(p) => Ok(TypeExpr::Primitive(*p)),
        TypeExpr::Record(fields) => {
            proof {
                let s = part_trees(fields@);
                assert forall|i: int| 0 <= i < fields@.len() implies expands(
                    m,
                    (#[trigger] fields@[i]).1.tree(),
                    n,
                ) by {
                    assert(s[i].1 == fields@[i].1.tree());
                }
            }
            match expand_parts(fields, schema_index, context, ".", Ghost(n)) {
                Ok(v) => {
                    let r = TypeExpr::Record(v);
                    proof {
                        lemma_parts_tree(r);
                    }
                    Ok(r)
                },
                Err(e) => Err(e),
            }
        },
        TypeExpr::Variant(arms) => {
            proof {
                let s = part_trees(arms@);
                assert forall|i: int| 0 <= i < arms@.len() implies expands(
                    m,
                    (#[trigger] arms@[i]).1.tree(),
                    n,
                ) by {
                    assert(s[i].1 == arms@[i].1.tree());
                }
            }
            match expand_parts(arms, schema_index, context, "::", Ghost(n)) {
                Ok(v) => {
                    let r = TypeExpr::Variant(v);
                    proof {
                        lemma_parts_tree(r);
                    }
                    Ok(r)
                },
                Err(e) => Err(e),
            }
        },
        TypeExpr::List(t) => match expand_type(t, schema_index, context, Ghost(n)) {
            Ok(x) => Ok(TypeExpr::List(Box::new(x))),
            Err(e) => Err(e),
        },
        TypeExpr::SetOf(t) => match expand_type(t, schema_index, context, Ghost(n)) {
            Ok(x) => Ok(TypeExpr::SetOf(Box::new(x))),
            Err(e) => Err(e),
        },
        TypeExpr::Mapping(k, t) => match expand_type(t, schema_index, context, Ghost(n)) {
            Ok(x) => Ok(TypeExpr::Mapping(*k, Box::new(x))),
            Err(e) => Err(e),
        },
        TypeExpr::OptionOf(t) => match expand_type(t, schema_index, context, Ghost(n)) {
            Ok(x) => Ok(TypeExpr::OptionOf(Box::new(x))),
            Err(e) => Err(e),
        },
        TypeExpr::Ref(name) => match schema_index.get(name.as_str()) {
            None => Err(
                KernelError::Manifest(
                    join5("schema '", name.as_str(), "' referenced by ", context, " not found"),
                ),
            ),
            Some(target) => expand_type(
                target,
                schema_index,
                name.as_str(),
                Ghost((n - 1) as nat),
            ),
        },
    }
}

/// What filling in a schema comes to.
pub open spec fn expansion(
    m: Map<Seq<char>, TypeTree>,
    ty: TypeTree,
    context: Seq<char>,
) -> Result<TypeTree, Seq<char>> {
    let n = choose|n: nat| expands(m, ty, n);
    expanded(m, ty, context, n)
}

/// Any number of levels that is enough gives the same.
pub proof fn lemma_expansion_is(
    m: Map<Seq<char>, TypeTree>,
    ty: TypeTree,
    context: Seq<char>,
    n: nat,
)
    requires
        expands(m, ty, n),
    ensures
        expansion(m, ty, context) == expanded(m, ty, context, n),
{
    let k = choose|k: nat| expands(m, ty, k);
    if n <= k {
        lemma_expanded_more(m, ty, context, n, k);
    } else {
        lemma_expanded_more(m, ty, context, k, n);
    }
}

/// The schema with its references filled in. The references that it comes to must run in no
/// circle.
pub fn expand_cap_schema(schema: &TypeExpr, schema_index: &SchemaIndex, context: &str) -> (r: Result<
    TypeExpr,
    KernelError,
>)
    requires
        can_expand(index_trees(schema_index.map()), schema.tree()),
    ensures
        match (r, expansion(index_trees(schema_index.map()), schema.tree(), context@)) {
            (Ok(v), Ok(t)) => v.tree() == t,
            (Err(e), Err(t)) => is_manifest_error(e, t),
            _ => false,
        },
{
    let ghost n = choose|n: nat| expands(index_trees(schema_index.map()), schema.tree(), n);
    expand_type(schema, schema_index, context, Ghost(n))
}

/// Every type with a mark can be filled in only where `ty` can, within as many levels.
spec fn on_path(
    m: Map<Seq<char>, TypeTree>,
    list: Seq<(String, TypeExpr)>,
    marks: Seq<bool>,
    ty: TypeTree,
) -> bool {
    forall|i: int, n: nat|
        #![trigger marks[i], expands(m, ty, n)]
        0 <= i < marks.len() && marks[i] && expands(m, list[i].1.tree(), n) ==> expands(m, ty, n)
}

/// A type that comes back to itself cannot be filled in.
proof fn lemma_never(m: Map<Seq<char>, TypeTree>, name: Seq<char>, n: nat)
    requires
        m.contains_key(name),
        forall|k: nat| expands(m, m[name], k) ==> #[trigger] expands(m, TypeTree::Ref(name), k),
    ensures
        !expands(m, m[name], n),
    decreases n,
{
    if expands(m, m[name], n) {
        assert(expands(m, TypeTree::Ref(name), n));
        lemma_never(m, name, (n - 1) as nat);
    }
}

proof fn lemma_more(m: Map<Seq<char>, TypeTree>, ty: TypeTree, n: nat, k: nat)
    requires
        expands(m, ty, n),
        n <= k,
    ensures
        expands(m, ty, k),
{
    lemma_expanded_more(m, ty, Seq::empty(), n, k);
}

proof fn lemma_part_expands(
    m: Map<Seq<char>, TypeTree>,
    ty: TypeTree,
    parts: Seq<(Seq<char>, TypeTree)>,
    i: int,
    n: nat,
)
    requires
        ty == TypeTree::Record(parts) || ty == TypeTree::Variant(parts),
        expands(m, ty, n),
        0 <= i < parts.len(),
    ensures
        expands(m, parts[i].1, n),
{
    match ty {
        TypeTree::Record(fields) => {
            assert(fields[i] == parts[i]);
        },
        TypeTree::Variant(arms) => {
            assert(arms[i] == parts[i]);
        },
        _ => {},
    }
}

/// Looks at the parts of a record or a variant.
fn parts_end(
    parts: &Vec<(String, TypeExpr)>,
    schema_index: &SchemaIndex,
    marks: &mut Vec<bool>,
    Ghost(ty): Ghost<TypeExpr>,
) -> (r: bool)
    requires
        ty == TypeExpr::Record(*parts) || ty == TypeExpr::Variant(*parts),
        old(marks)@.len() == schema_index.schemas.list().len(),
        on_path(
            index_trees(schema_index.map()),
            schema_index.schemas.list(),
            old(marks)@,
            ty.tree(),
        ),
    ensures
        final(marks)@ == old(marks)@,
        r == can_expand(index_trees(schema_index.map()), ty.tree()),
    decreases unset(old(marks)@, old(marks)@.len()), ty, 0nat,
{
    let ghost m = index_trees(schema_index.map());
    let ghost list = schema_index.schemas.list();
    let ghost all = part_trees(parts@);
    let ghost mut level: nat = 0;
    let mut i: usize = 0;
    proof {
        lemma_parts_tree(ty);
    }
    while i < parts.len()
        invariant
            i <= parts@.len(),
            m == index_trees(schema_index.map()),
            list == schema_index.schemas.list(),
            all == part_trees(parts@),
            ty == TypeExpr::Record(*parts) || ty == TypeExpr::Variant(*parts),
            ty.tree() == TypeTree::Record(all) || ty.tree() == TypeTree::Variant(all),
            marks@ == old(marks)@,
            marks@.len() == list.len(),
            on_path(m, list, marks@, ty.tree()),
            forall|k: int| 0 <= k < i ==> expands(m, (#[trigger] all[k]).1, level),
        decreases parts@.len() - i,
    {
        proof {
            let one = parts@[i as int];
            assert(decreases_to!(*parts => parts@));
            assert(decreases_to!(parts@ => one));
            assert(decreases_to!(one => one.1));
            if ty is Record {
                assert(decreases_to!(ty => ty->Record_0));
            } else {
                assert(decreases_to!(ty => ty->Variant_0));
            }
            assert(all[i as int].1 == one.1.tree());
            assert forall|k: int, n: nat|
                #![trigger marks@[k], expands(m, one.1.tree(), n)]
                0 <= k < marks@.len() && marks@[k] && expands(
                    m,
                    list[k].1.tree(),
                    n,
                ) implies expands(m, one.1.tree(), n) by {
                assert(expands(m, ty.tree(), n));
                lemma_part_expands(m, ty.tree(), all, i as int, n);
            }
        }
        let ok = type_ends(&parts[i].1, schema_index, marks);
        if !ok {
            proof {
                if can_expand(m, ty.tree()) {
                    let n = choose|n: nat| expands(m, ty.tree(), n);
                    lemma_part_expands(m, ty.tree(), all, i as int, n);
                }
            }
            return false;
        }
        proof {
            let n = choose|n: nat| expands(m, all[i as int].1, n);
            let was = level;
            level = if n > level {
                n
            } else {
                level
            };
            assert forall|k: int| 0 <= k < i + 1 implies expands(m, (#[trigger] all[k]).1, level) by {
                if k < i {
                    lemma_more(m, all[k].1, was, level);
                } else {
                    lemma_more(m, all[k].1, n, level);
                }
            }
        }
        i += 1;
    }
    assert(expands(m, ty.tree(), level));
    true
}

/// Looks at a type, after references to the types with a mark.
fn type_ends(ty: &TypeExpr, schema_index: &SchemaIndex, marks: &mut Vec<bool>) -> (r: bool)
    requires
        old(marks)@.len() == schema_index.schemas.list().len(),
        on_path(
            index_trees(schema_index.map()),
            schema_index.schemas.list(),
            old(marks)@,
            ty.tree(),
        ),
    ensures
        final(marks)@ == old(marks)@,
        r == can_expand(index_trees(schema_index.map()), ty.tree()),
    decreases unset(old(marks)@, old(marks)@.len()), *ty, 1nat,
{
    let ghost m = index_trees(schema_index.map());
    let ghost list = schema_index.schemas.list();
    match ty {
        TypeExpr::Primitive(_) => {
            assert(expands(m, ty.tree(), 0));
            true
        },
        TypeExpr::Record(fields) => parts_end(fields, schema_index, marks, Ghost(*ty)),
        TypeExpr::Variant(arms) => parts_end(arms, schema_index, marks, Ghost(*ty)),
        TypeExpr::List(t) => inner_ends(t, schema_index, marks, Ghost(*ty)),
        TypeExpr::SetOf(t) => inner_ends(t, schema_index, marks, Ghost(*ty)),
        TypeExpr::Mapping(_, t) => inner_ends(t, schema_index, marks, Ghost(*ty)),
        TypeExpr::OptionOf(t) => inner_ends(t, schema_index, marks, Ghost(*ty)),
        TypeExpr::Ref(name) => {
            let entries = schema_index.schemas.entries();
            let i: usize = schema_index.schemas.find(name.as_str());
            proof {
                lemma_name_index(list, name@);
            }
            if i >= entries.len() {
                assert(expands(m, ty.tree(), 0));
                return true;
            }
            let target = &entries[i].1;
            assert(m.contains_key(name@) && m[name@] == target.tree());
            if marks[i] {
                proof {
                    assert forall|k: nat| expands(m, m[name@], k) implies #[trigger] expands(
                        m,
                        TypeTree::Ref(name@),
                        k,
                    ) by {
                        assert(marks@[i as int]);
                    }
                    if can_expand(m, ty.tree()) {
                        let n = choose|n: nat| expands(m, ty.tree(), n);
                        lemma_never(m, name@, (n - 1) as nat);
                    }
                }
                return false;
            }
            let ghost before = marks@;
            proof {
                lemma_unset_drops(before, i as int, before.len());
            }
            marks.set(i, true);
            let ghost mid = marks@;
            assert(mid == before.update(i as int, true));
            proof {
                assert forall|k: int, n: nat|
                    #![trigger mid[k], expands(m, target.tree(), n)]
                    0 <= k < mid.len() && mid[k] && expands(
                        m,
                        list[k].1.tree(),
                        n,
                    ) implies expands(m, target.tree(), n) by {
                    if k != i {
                        assert(before[k]);
                        assert(expands(m, ty.tree(), n));
                        lemma_more(m, target.tree(), (n - 1) as nat, n);
                    }
                }
            }
            let ok = type_ends(target, schema_index, marks);
            marks.set(i, false);
            proof {
                assert(marks@ =~= before);
                if can_expand(m, target.tree()) {
                    let n = choose|n: nat| expands(m, target.tree(), n);
                    assert(expands(m, ty.tree(), n + 1));
                }
                if can_expand(m, ty.tree()) {
                    let n = choose|n: nat| expands(m, ty.tree(), n);
                    assert(expands(m, target.tree(), (n - 1) as nat));
                }
            }
            ok
        },
    }
}

/// Looks at the type that a list, a set, a map or an option is of.
fn inner_ends(
    inner: &TypeExpr,
    schema_index: &SchemaIndex,
    marks: &mut Vec<bool>,
    Ghost(ty): Ghost<TypeExpr>,
) -> (r: bool)
    requires
        match ty {
            TypeExpr::List(t) => *t == *inner,
            TypeExpr::SetOf(t) => *t == *inner,
            TypeExpr::Mapping(_, t) => *t == *inner,
            TypeExpr::OptionOf(t) => *t == *inner,
            _ => false,
        },
        old(marks)@.len() == schema_index.schemas.list().len(),
        on_path(
            index_trees(schema_index.map()),
            schema_index.schemas.list(),
            old(marks)@,
            ty.tree(),
        ),
    ensures
        final(marks)@ == old(marks)@,
        r == can_expand(index_trees(schema_index.map()), ty.tree()),
    decreases unset(old(marks)@, old(marks)@.len()), *inner, 2nat,
{
    let ghost m = index_trees(schema_index.map());
    let ghost list = schema_index.schemas.list();
    proof {
        assert forall|n: nat| #[trigger] expands(m, inner.tree(), n) == expands(m, ty.tree(), n) by {}
        assert forall|k: int, n: nat|
            #![trigger marks@[k], expands(m, inner.tree(), n)]
            0 <= k < marks@.len() && marks@[k] && expands(m, list[k].1.tree(), n) implies expands(
            m,
            inner.tree(),
            n,
        ) by {
            assert(expands(m, ty.tree(), n));
        }
    }
    let r = type_ends(inner, schema_index, marks);
    proof {
        if can_expand(m, ty.tree()) {
            let n = choose|n: nat| expands(m, ty.tree(), n);
            assert(expands(m, inner.tree(), n));
        }
        if can_expand(m, inner.tree()) {
            let n = choose|n: nat| expands(m, inner.tree(), n);
            assert(expands(m, ty.tree(), n));
        }
    }
    r
}

/// Whether the references in a schema can be filled in.
pub fn can_expand_schema(schema: &TypeExpr, schema_index: &SchemaIndex) -> (r: bool)
    ensures
        r == can_expand(index_trees(schema_index.map()), schema.tree()),
{
    let mut marks = no_marks(schema_index);
    type_ends(schema, schema_index, &mut marks)
}

} // verus!
