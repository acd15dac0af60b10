//! The type model that guides conversions: named types as plain data.

use vstd::prelude::*;

use crate::text;

verus! {

/// A scalar type.
#[derive(Clone, Copy, Debug, PartialEq, Eq, Structural)]
pub enum Primitive {
    Boolean,
    Integer,
    Number,
    String,
    Null,
}

/// A shape that only RON knows.
#[derive(Clone, Copy, Debug, PartialEq, Eq, Structural)]
pub enum RonKind {
    Char,
    Unit,
    Bytes,
    Tuple,
    Optional,
    NonStringKeyMap,
}

/// How an enum is tagged in JSON.
#[derive(Debug)]
pub enum Discriminator {
    External,
    Internal { tag: String },
    Adjacent { tag: String, content: String },
    Untagged,
}

/// A reference to a type: by name, or written in place.
#[derive(Debug)]
pub enum TypeRef {
    Named(String),
    Inline(Box<TypeNode>),
}

/// A type.
#[derive(Debug)]
pub struct TypeNode {
    pub kind: NodeKind,
    pub ron_kind: Option<RonKind>,
}

/// The structure of a type.
#[derive(Debug)]
pub enum NodeKind {
    Primitive { primitive: Primitive },
    Sequence { element: TypeRef },
    Dictionary { key: TypeRef, value: TypeRef },
    Optional { inner: TypeRef },
    Tuple { elements: Vec<TypeRef> },
    Object { fields: Vec<Field>, deny_unknown_fields: bool },
    Enum { variants: Vec<Variant>, discriminator: Discriminator },
    Unknown,
}

/// A field of a struct or of a struct variant.
#[derive(Debug)]
pub struct Field {
    pub serialized_key: String,
    pub value: TypeRef,
    pub optional: bool,
    pub flatten: bool,
}

/// A variant of an enum.
#[derive(Debug)]
pub struct Variant {
    pub serialized_name: String,
    pub shape: VariantShape,
}

/// The payload of a variant.
#[derive(Debug)]
pub enum VariantShape {
    Unit,
    Newtype(TypeRef),
    Tuple(Vec<TypeRef>),
    Struct(Vec<Field>),
}

impl TypeRef {
    /// A reference by name.
    pub fn named(name: &str) -> (r: TypeRef)
        ensures
            r matches TypeRef::Named(n) && n@ == name@,
    {
        TypeRef::Named(name.to_owned())
    }

    /// A type written in place.
    pub fn inline(node: TypeNode) -> (r: TypeRef)
        ensures
            r == TypeRef::Inline(Box::new(node)),
    {
        TypeRef::Inline(Box::new(node))
    }
}

impl TypeNode {
    /// A type of the given structure.
    pub fn new(kind: NodeKind) -> (r: TypeNode)
        ensures
            r == (TypeNode { kind, ron_kind: None }),
    {
        TypeNode { kind, ron_kind: None }
    }

    /// A scalar type.
    pub fn primitive(primitive: Primitive) -> (r: TypeNode)
        ensures
            r == (TypeNode { kind: NodeKind::Primitive { primitive }, ron_kind: None }),
    {
        TypeNode { kind: NodeKind::Primitive { primitive }, ron_kind: None }
    }

    /// A tuple type.
    pub fn tuple(elements: Vec<TypeRef>) -> (r: TypeNode)
        ensures
            r == (TypeNode { kind: NodeKind::Tuple { elements }, ron_kind: Some(RonKind::Tuple) }),
    {
        TypeNode { kind: NodeKind::Tuple { elements }, ron_kind: Some(RonKind::Tuple) }
    }

    /// An option type.
    pub fn option(inner: TypeRef) -> (r: TypeNode)
        ensures
            r == (TypeNode {
                kind: NodeKind::Optional { inner },
                ron_kind: Some(RonKind::Optional),
            }),
    {
        TypeNode { kind: NodeKind::Optional { inner }, ron_kind: Some(RonKind::Optional) }
    }

    /// The type of a character: a string in JSON.
    pub fn char_() -> (r: TypeNode)
        ensures
            r == (TypeNode {
                kind: NodeKind::Primitive { primitive: Primitive::String },
                ron_kind: Some(RonKind::Char),
            }),
    {
        TypeNode {
            kind: NodeKind::Primitive { primitive: Primitive::String },
            ron_kind: Some(RonKind::Char),
        }
    }

    /// The unit type: `null` in JSON.
    pub fn unit() -> (r: TypeNode)
        ensures
            r == (TypeNode {
                kind: NodeKind::Primitive { primitive: Primitive::Null },
                ron_kind: Some(RonKind::Unit),
            }),
    {
        TypeNode {
            kind: NodeKind::Primitive { primitive: Primitive::Null },
            ron_kind: Some(RonKind::Unit),
        }
    }

    /// A type that could not be determined.
    pub fn unknown() -> (r: TypeNode)
        ensures
            r == (TypeNode { kind: NodeKind::Unknown, ron_kind: None }),
    {
        TypeNode { kind: NodeKind::Unknown, ron_kind: None }
    }

    /// A map whose keys are no strings.
    pub fn non_string_key_map(key: TypeRef, value: TypeRef) -> (r: TypeNode)
        ensures
            r == (TypeNode {
                kind: NodeKind::Dictionary { key, value },
                ron_kind: Some(RonKind::NonStringKeyMap),
            }),
    {
        TypeNode {
            kind: NodeKind::Dictionary { key, value },
            ron_kind: Some(RonKind::NonStringKeyMap),
        }
    }
}

/// Named types.
#[derive(Debug)]
pub struct TypeModel {
    pub named: Vec<(String, TypeNode)>,
}

/// The type listed under `name` at or after position `from`.
pub open spec fn type_named(named: Seq<(String, TypeNode)>, name: Seq<char>, from: nat) -> Option<
    TypeNode,
>
    decreases named.len() - from,
{
    if from >= named.len() {
        None
    } else if named[from as int].0@ == name {
        Some(named[from as int].1)
    } else {
        type_named(named, name, from + 1)
    }
}

impl TypeModel {
    /// The type registered under `name`.
    pub open spec fn find(&self, name: Seq<char>) -> Option<TypeNode> {
        type_named(self.named@, name, 0)
    }

    /// The type that a reference stands for.
    pub open spec fn target(&self, reference: TypeRef) -> Option<TypeNode> {
        match reference {
            TypeRef::Named(name) => self.find(name@),
            TypeRef::Inline(node) => Some(*node),
        }
    }

    /// No types.
    pub fn new() -> (r: TypeModel)
        ensures
            r.named@.len() == 0,
            forall|n: Seq<char>| r.find(n) is None,
    {
        TypeModel { named: Vec::new() }
    }

    /// Registers a type, in place of one with the same name.
    pub fn insert_named(&mut self, name: &str, node: TypeNode)
        ensures
            final(self).find(name@) == Some(node),
            forall|n: Seq<char>| n != name@ ==> final(self).find(n) == old(self).find(n),
    {
        let ghost before = self.named@;
        let mut i: usize = 0;
        while i < self.named.len()
            invariant
                self.named@ == before,
                before == old(self).named@,
                i <= self.named@.len(),
                forall|j: int| 0 <= j < i ==> (#[trigger] self.named@[j]).0@ != name@,
            decreases self.named@.len() - i,
        {
            if text::same_text(self.named[i].0.as_str(), name) {
                self.named.set(i, (name.to_owned(), node));
                proof {
                    lemma_first_named(self.named@, name@, i as nat, 0);
                    assert forall|n: Seq<char>| n != name@ implies self.find(n) == type_named(
                        before,
                        n,
                        0,
                    ) by {
                        lemma_same_elsewhere(before, self.named@, n, 0);
                    }
                }
                return ;
            }
            i += 1;
        }
        self.named.push((name.to_owned(), node));
        proof {
            lemma_first_named(self.named@, name@, before.len(), 0);
            assert forall|n: Seq<char>| n != name@ implies self.find(n) == type_named(
                before,
                n,
                0,
            ) by {
                lemma_same_with_one_more(before, self.named@, n, 0);
            }
        }
    }

    /// The type registered under `name`.
    pub fn lookup(&self, name: &str) -> (r: Option<&TypeNode>)
        ensures
            match r {
                Some(node) => self.find(name@) == Some(*node),
                None => self.find(name@) is None,
            },
    {
        let mut i: usize = 0;
        while i < self.named.len()
            invariant
                i <= self.named@.len(),
                type_named(self.named@, name@, i as nat) == self.find(name@),
            decreases self.named@.len() - i,
        {
            if text::same_text(self.named[i].0.as_str(), name) {
                return Some(&self.named[i].1);
            }
            i += 1;
        }
        None
    }

    /// Whether a type is registered under `name`.
    pub fn contains(&self, name: &str) -> (r: bool)
        ensures
            r == (self.find(name@) is Some),
    {
        self.lookup(name).is_some()
    }

    /// The type that a reference stands for.
    pub fn resolve<'a>(&'a self, reference: &'a TypeRef) -> (r: Option<&'a TypeNode>)
        ensures
            match r {
                Some(node) => self.target(*reference) == Some(*node),
                None => self.target(*reference) is None,
            },
    {
        match reference {
            TypeRef::Named(name) => self.lookup(name.as_str()),
            TypeRef::Inline(node) => Some(&**node),
        }
    }
}

proof fn lemma_first_named(named: Seq<(String, TypeNode)>, name: Seq<char>, at: nat, from: nat)
    requires
        from <= at < named.len(),
        named[at as int].0@ == name,
        forall|j: int| 0 <= j < at ==> (#[trigger] named[j]).0@ != name,
    ensures
        type_named(named, name, from) == Some(named[at as int].1),
    decreases at - from,
{
    if from < at {
        lemma_first_named(named, name, at, from + 1);
    }
}

proof fn lemma_same_elsewhere(
    a: Seq<(String, TypeNode)>,
    b: Seq<(String, TypeNode)>,
    name: Seq<char>,
    from: nat,
)
    requires
        a.len() == b.len(),
        forall|j: int|
            0 <= j < a.len() ==> (#[trigger] a[j] == b[j] || (a[j].0@ != name && b[j].0@ != name)),
    ensures
        type_named(a, name, from) == type_named(b, name, from),
    decreases a.len() - from,
{
    if from < a.len() {
        lemma_same_elsewhere(a, b, name, from + 1);
        assert(a[from as int] == b[from as int] || a[from as int].0@ != name);
    }
}

proof fn lemma_same_with_one_more(
    a: Seq<(String, TypeNode)>,
    b: Seq<(String, TypeNode)>,
    name: Seq<char>,
    from: nat,
)
    requires
        b.len() == a.len() + 1,
        forall|j: int| 0 <= j < a.len() ==> #[trigger] a[j] == b[j],
        b.last().0@ != name,
    ensures
        type_named(a, name, from) == type_named(b, name, from),
    decreases b.len() - from,
{
    if from < b.len() {
        lemma_same_with_one_more(a, b, name, from + 1);
        if from < a.len() {
            assert(a[from as int] == b[from as int]);
        }
    }
}

/// The type under a name is the first that is listed under it; there is none under a name
/// that is not listed.
pub proof fn types_are_found_by_their_name(
    named: Seq<(String, TypeNode)>,
    name: Seq<char>,
    from: nat,
    i: int,
)
    requires
        from <= i <= named.len(),
        forall|j: int| from <= j < i ==> (#[trigger] named[j]).0@ != name,
        i < named.len() ==> named[i].0@ == name,
    ensures
        type_named(named, name, from) == (if i < named.len() {
            Some(named[i].1)
        } else {
            None
        }),
    decreases i - from,
{
    if from < i {
        assert(named[from as int].0@ != name);
        types_are_found_by_their_name(named, name, from + 1, i);
    }
}

} // verus!
