//! Definitions and manifests.
use vstd::prelude::*;

use crate::cbor::clone_bytes;
use crate::hash::{ContentHash, HashRef};
use crate::store::StoreNode;
use crate::text::{starts_with, str_eq, strip_prefix};

verus! {

/// The version of the definition language that the kernel runs.
pub const CURRENT_AIR_VERSION: &'static str = "1";

/// The kind of a definition.
#[derive(Clone, Copy, Debug, PartialEq, Eq, Structural)]
pub enum NodeKind {
    Schema,
    Module,
    Workflow,
    Op,
    Effect,
    Cap,
    Policy,
    Secret,
    Manifest,
}

impl NodeKind {
    pub open spec fn name(self) -> Seq<char> {
        match self {
            NodeKind::Schema => "defschema"@,
            NodeKind::Module => "defmodule"@,
            NodeKind::Workflow => "defworkflow"@,
            NodeKind::Op => "defop"@,
            NodeKind::Effect => "defeffect"@,
            NodeKind::Cap => "defcap"@,
            NodeKind::Policy => "defpolicy"@,
            NodeKind::Secret => "defsecret"@,
            NodeKind::Manifest => "manifest"@,
        }
    }

    /// The word for the kind in patches and errors.
    pub fn label(self) -> (r: &'static str)
        ensures
            r@ == self.name(),
    {
        match self {
            NodeKind::Schema => "defschema",
            NodeKind::Module => "defmodule",
            NodeKind::Workflow => "defworkflow",
            NodeKind::Op => "defop",
            NodeKind::Effect => "defeffect",
            NodeKind::Cap => "defcap",
            NodeKind::Policy => "defpolicy",
            NodeKind::Secret => "defsecret",
            NodeKind::Manifest => "manifest",
        }
    }

    /// Whether a definition is of this kind.
    pub fn matches(self, node: &AirNode) -> (r: bool)
        ensures
            r == (self == node.kind),
    {
        self == node.kind
    }
}

/// A definition, with its canonical encoding. A secret has a binding; other definitions have an
/// empty one.
#[derive(Debug)]
pub struct AirNode {
    pub kind: NodeKind,
    pub name: String,
    pub binding_id: String,
    pub bytes: Vec<u8>,
}

/// The model of a definition.
pub struct NodeTree {
    pub kind: NodeKind,
    pub name: Seq<char>,
    pub binding_id: Seq<char>,
    pub bytes: Seq<u8>,
}

impl View for AirNode {
    type V = NodeTree;

    open spec fn view(&self) -> NodeTree {
        NodeTree {
            kind: self.kind,
            name: self.name@,
            binding_id: self.binding_id@,
            bytes: self.bytes@,
        }
    }
}

impl StoreNode for AirNode {
    open spec fn encoding(v: NodeTree) -> Result<Seq<u8>, Seq<char>> {
        Ok(v.bytes)
    }

    fn encode(&self) -> (r: Result<Vec<u8>, String>) {
        Ok(clone_bytes(&self.bytes))
    }

    fn copied(&self) -> (r: Self) {
        AirNode {
            kind: self.kind,
            name: self.name.clone(),
            binding_id: self.binding_id.clone(),
            bytes: clone_bytes(&self.bytes),
        }
    }
}

impl AirNode {
    /// The digest of the definition.
    pub fn hash(&self) -> (r: ContentHash)
        ensures
            r@ == crate::hash::sha256(self.bytes@),
    {
        ContentHash::of_bytes(self.bytes.as_slice())
    }
}

/// A definition by name and digest.
#[derive(Debug)]
pub struct NamedRef {
    pub name: String,
    pub hash: HashRef,
}

impl Clone for NamedRef {
    fn clone(&self) -> (r: Self)
        ensures
            r == *self,
    {
        NamedRef { name: self.name.clone(), hash: self.hash.clone() }
    }
}

/// The model of a reference: its name and the text of its digest.
pub type RefView = (Seq<char>, Seq<char>);

impl View for NamedRef {
    type V = RefView;

    open spec fn view(&self) -> RefView {
        (self.name@, self.hash@)
    }
}

/// The models of a list of references.
pub open spec fn refs_view(refs: Seq<NamedRef>) -> Seq<RefView> {
    Seq::new(refs.len(), |i: int| refs[i]@)
}

/// The index of the first reference named `name`, or the number of references.
pub open spec fn ref_index(refs: Seq<RefView>, name: Seq<char>) -> int
    decreases refs.len(),
{
    if refs.len() == 0 {
        0
    } else if refs[0].0 == name {
        0
    } else {
        1 + ref_index(refs.drop_first(), name)
    }
}

/// Whether a reference is named `name`.
pub open spec fn has_ref(refs: Seq<RefView>, name: Seq<char>) -> bool {
    ref_index(refs, name) < refs.len()
}

pub proof fn lemma_ref_index(refs: Seq<RefView>, name: Seq<char>)
    ensures
        0 <= ref_index(refs, name) <= refs.len(),
        ref_index(refs, name) < refs.len() ==> refs[ref_index(refs, name)].0 == name,
        forall|i: int| 0 <= i < ref_index(refs, name) ==> (#[trigger] refs[i]).0 != name,
    decreases refs.len(),
{
    if refs.len() > 0 && refs[0].0 != name {
        lemma_ref_index(refs.drop_first(), name);
        assert forall|i: int| 0 <= i < ref_index(refs, name) implies (#[trigger] refs[i]).0
            != name by {
            if i > 0 {
                assert(refs.drop_first()[i - 1] == refs[i]);
            }
        }
    }
}

/// The position of the first reference named `name`.
pub fn find_ref(refs: &Vec<NamedRef>, name: &str) -> (r: usize)
    ensures
        r == ref_index(refs_view(refs@), name@),
        r <= refs@.len(),
{
    let ghost s = refs_view(refs@);
    let mut i: usize = 0;
    assert(s.skip(0) =~= s);
    while i < refs.len()
        invariant
            i <= refs@.len(),
            s == refs_view(refs@),
            ref_index(s, name@) == i + ref_index(s.skip(i as int), name@),
        decreases refs@.len() - i,
    {
        assert(s.skip(i as int)[0].0 == refs@[i as int].name@);
        if str_eq(refs[i].name.as_str(), name) {
            return i;
        }
        assert(s.skip(i as int).drop_first() =~= s.skip(i + 1));
        i += 1;
    }
    i
}

/// The references with `name` pointing to `hash`: in place where the name is there, else at the
/// end.
pub open spec fn ref_set(refs: Seq<RefView>, name: Seq<char>, hash: Seq<char>) -> Seq<RefView> {
    if has_ref(refs, name) {
        refs.update(ref_index(refs, name), (refs[ref_index(refs, name)].0, hash))
    } else {
        refs.push((name, hash))
    }
}

/// The references without the first one named `name`.
pub open spec fn ref_removed(refs: Seq<RefView>, name: Seq<char>) -> Seq<RefView> {
    if has_ref(refs, name) {
        refs.remove(ref_index(refs, name))
    } else {
        refs
    }
}

/// Whether a name belongs to the built-in definitions.
pub open spec fn is_sys(name: Seq<char>) -> bool {
    starts_with(name, "sys/"@)
}

pub fn is_sys_name(name: &str) -> (r: bool)
    ensures
        r == is_sys(name@),
{
    strip_prefix(name, "sys/").is_some()
}

/// A subscription of a module to an event.
#[derive(Debug)]
pub struct RoutingEvent {
    pub event: String,
    pub module: String,
    pub key_field: Option<String>,
}

/// A manifest: the definitions of a world, and the routing of its events.
#[derive(Debug)]
pub struct Manifest {
    pub air_version: String,
    pub schemas: Vec<NamedRef>,
    pub modules: Vec<NamedRef>,
    pub workflows: Vec<NamedRef>,
    pub ops: Vec<NamedRef>,
    pub effects: Vec<NamedRef>,
    pub caps: Vec<NamedRef>,
    pub policies: Vec<NamedRef>,
    pub secrets: Vec<NamedRef>,
    pub routing: Option<Vec<RoutingEvent>>,
}

/// The model of a manifest. The routing is taken as it stands.
#[verifier::ext_equal]
pub struct ManifestView {
    pub air_version: Seq<char>,
    pub schemas: Seq<RefView>,
    pub modules: Seq<RefView>,
    pub workflows: Seq<RefView>,
    pub ops: Seq<RefView>,
    pub effects: Seq<RefView>,
    pub caps: Seq<RefView>,
    pub policies: Seq<RefView>,
    pub secrets: Seq<RefView>,
    pub routing: Option<Seq<RoutingView>>,
}

/// The model of a subscription: event, module and key field.
pub type RoutingView = (Seq<char>, Seq<char>, Option<Seq<char>>);

impl View for RoutingEvent {
    type V = RoutingView;

    open spec fn view(&self) -> RoutingView {
        (
            self.event@,
            self.module@,
            match self.key_field {
                Some(k) => Some(k@),
                None => None,
            },
        )
    }
}

pub open spec fn routing_view(r: Option<Vec<RoutingEvent>>) -> Option<Seq<RoutingView>> {
    match r {
        Some(v) => Some(Seq::new(v@.len(), |i: int| v@[i]@)),
        None => None,
    }
}

impl View for Manifest {
    type V = ManifestView;

    open spec fn view(&self) -> ManifestView {
        ManifestView {
            air_version: self.air_version@,
            schemas: refs_view(self.schemas@),
            modules: refs_view(self.modules@),
            workflows: refs_view(self.workflows@),
            ops: refs_view(self.ops@),
            effects: refs_view(self.effects@),
            caps: refs_view(self.caps@),
            policies: refs_view(self.policies@),
            secrets: refs_view(self.secrets@),
            routing: routing_view(self.routing),
        }
    }
}

/// Copies of references.
pub fn copy_refs(refs: &Vec<NamedRef>) -> (r: Vec<NamedRef>)
    ensures
        r@ == refs@,
{
    let mut out: Vec<NamedRef> = Vec::new();
    let mut i: usize = 0;
    while i < refs.len()
        invariant
            i <= refs@.len(),
            out@ == refs@.take(i as int),
        decreases refs@.len() - i,
    {
        out.push(refs[i].clone());
        assert(refs@.take(i + 1) =~= refs@.take(i as int).push(refs@[i as int]));
        i += 1;
    }
    assert(refs@.take(i as int) =~= refs@);
    out
}

fn copy_routing(r: &Option<Vec<RoutingEvent>>) -> (out: Option<Vec<RoutingEvent>>)
    ensures
        routing_view(out) == routing_view(*r),
{
    match r {
        None => None,
        Some(items) => {
            let mut out: Vec<RoutingEvent> = Vec::new();
            let mut i: usize = 0;
            while i < items.len()
                invariant
                    i == out@.len(),
                    i <= items@.len(),
                    forall|k: int| 0 <= k < i ==> (#[trigger] out@[k])@ == items@[k]@,
                decreases items@.len() - i,
            {
                let key_field = match &items[i].key_field {
                    Some(k) => Some(k.clone()),
                    None => None,
                };
                out.push(
                    RoutingEvent {
                        event: items[i].event.clone(),
                        module: items[i].module.clone(),
                        key_field,
                    },
                );
                i += 1;
            }
            assert(Seq::new(out@.len(), |i: int| out@[i]@) =~= Seq::new(
                items@.len(),
                |i: int| items@[i]@,
            ));
            Some(out)
        },
    }
}

impl Manifest {
    /// A copy of the manifest.
    pub fn copied(&self) -> (r: Manifest)
        ensures
            r@ == self@,
    {
        Manifest {
            air_version: self.air_version.clone(),
            schemas: copy_refs(&self.schemas),
            modules: copy_refs(&self.modules),
            workflows: copy_refs(&self.workflows),
            ops: copy_refs(&self.ops),
            effects: copy_refs(&self.effects),
            caps: copy_refs(&self.caps),
            policies: copy_refs(&self.policies),
            secrets: copy_refs(&self.secrets),
            routing: copy_routing(&self.routing),
        }
    }
}

/// A definition that comes with the kernel.
#[derive(Debug)]
pub struct Builtin {
    pub node: AirNode,
    pub hash: ContentHash,
    pub hash_ref: HashRef,
}

/// The definitions that come with the kernel, of one kind.
pub open spec fn builtin_index(items: Seq<Builtin>, name: Seq<char>) -> int
    decreases items.len(),
{
    if items.len() == 0 {
        0
    } else if items[0].node.name@ == name {
        0
    } else {
        1 + builtin_index(items.drop_first(), name)
    }
}

pub open spec fn is_builtin(items: Seq<Builtin>, name: Seq<char>) -> bool {
    builtin_index(items, name) < items.len()
}

pub proof fn lemma_builtin_index(items: Seq<Builtin>, name: Seq<char>)
    ensures
        0 <= builtin_index(items, name) <= items.len(),
        builtin_index(items, name) < items.len() ==> items[builtin_index(
            items,
            name,
        )].node.name@ == name,
    decreases items.len(),
{
    if items.len() > 0 && items[0].node.name@ != name {
        lemma_builtin_index(items.drop_first(), name);
    }
}

/// The built-in definition named `name`.
pub fn find_builtin<'a>(items: &'a Vec<Builtin>, name: &str) -> (r: Option<&'a Builtin>)
    ensures
        match r {
            Some(b) => is_builtin(items@, name@) && *b == items@[builtin_index(items@, name@)]
                && b.node.name@ == name@,
            None => !is_builtin(items@, name@),
        },
{
    let ghost s = items@;
    let mut i: usize = 0;
    assert(s.skip(0) =~= s);
    while i < items.len()
        invariant
            i <= items@.len(),
            s == items@,
            builtin_index(s, name@) == i + builtin_index(s.skip(i as int), name@),
        decreases items@.len() - i,
    {
        assert(s.skip(i as int)[0] == s[i as int]);
        if str_eq(items[i].node.name.as_str(), name) {
            return Some(&items[i]);
        }
        assert(s.skip(i as int).drop_first() =~= s.skip(i + 1));
        i += 1;
    }
    None
}

/// The definitions that come with the kernel.
#[derive(Debug)]
pub struct Builtins {
    pub schemas: Vec<Builtin>,
    pub modules: Vec<Builtin>,
    pub workflows: Vec<Builtin>,
    pub ops: Vec<Builtin>,
    pub effects: Vec<Builtin>,
    pub caps: Vec<Builtin>,
}

} // verus!
