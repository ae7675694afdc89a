//! The schema descriptor: the run-time classification of every declared
//! field that drives both decoding and resolution.  A schema is built once
//! per set of entity types and interpreted by the generic decode and
//! resolve routines.

use vstd::prelude::*;

verus! {

/// How one declared field (or one union variant's payload) is treated.
#[derive(Debug, PartialEq, Eq)]
pub enum FieldKind {
    /// A plain scalar, passed through unchanged.
    Plain,
    /// A cross-reference to the type at this index, held as an identifier
    /// until resolution looks it up in the table.
    RefTo(usize),
    /// A nested complex value of the type at this index, decoded in place
    /// in its own unresolved form.
    Inline(usize),
    /// An ordered aggregate of the inner kind.
    ListOf(Box<FieldKind>),
    /// An optional occurrence of the inner kind.
    OptionalOf(Box<FieldKind>),
}

/// One concrete entity type: a stable name and its declared fields, in
/// declared order.
#[derive(Debug, PartialEq, Eq)]
pub struct EntityDef {
    pub name: String,
    pub fields: Vec<FieldKind>,
}

/// One variant of a tagged union: its textual tag and its payload kind.
#[derive(Debug, PartialEq, Eq)]
pub struct VariantDef {
    pub tag: String,
    pub kind: FieldKind,
}

/// A tagged union: a closed, ordered set of named alternatives.
#[derive(Debug, PartialEq, Eq)]
pub struct UnionDef {
    pub name: String,
    pub variants: Vec<VariantDef>,
}

/// One declared type of a schema.
#[derive(Debug, PartialEq, Eq)]
pub enum TypeDef {
    EntityType(EntityDef),
    UnionType(UnionDef),
}

/// An ordered list of type declarations; a field refers to a type by its
/// index in this list.
#[derive(Debug, PartialEq, Eq)]
pub struct Schema {
    pub types: Vec<TypeDef>,
}

/// Structural size of a field kind; a termination measure.
pub open spec fn kind_size(k: FieldKind) -> nat
    decreases k,
{
    match k {
        FieldKind::Plain => 1,
        FieldKind::RefTo(_) => 1,
        FieldKind::Inline(_) => 1,
        FieldKind::ListOf(inner) => 1 + kind_size(*inner),
        FieldKind::OptionalOf(inner) => 1 + kind_size(*inner),
    }
}

impl Schema {
    /// The number of declared types.
    pub open spec fn len(&self) -> nat {
        self.types@.len()
    }

    /// The type declared at index `t`.
    pub open spec fn at(&self, t: int) -> TypeDef {
        self.types@[t]
    }

    /// Whether index `t` names an entity type.
    pub open spec fn is_entity(&self, t: int) -> bool {
        0 <= t < self.len() && self.at(t) is EntityType
    }

    /// Whether index `t` names a union type.
    pub open spec fn is_union(&self, t: int) -> bool {
        0 <= t < self.len() && self.at(t) is UnionType
    }

    /// The declared fields of the entity at index `t`.
    pub open spec fn fields_of(&self, t: int) -> Seq<FieldKind>
        recommends
            self.is_entity(t),
    {
        self.at(t)->EntityType_0.fields@
    }

    /// The stable tag of the type at index `t`.
    pub open spec fn name_of(&self, t: int) -> Seq<char>
        recommends
            0 <= t < self.len(),
    {
        match self.at(t) {
            TypeDef::EntityType(e) => e.name@,
            TypeDef::UnionType(u) => u.name@,
        }
    }

    /// The variants of the union at index `t`.
    pub open spec fn variants_of(&self, t: int) -> Seq<VariantDef>
        recommends
            self.is_union(t),
    {
        self.at(t)->UnionType_0.variants@
    }

    /// The expected parameter count of the entity at index `t`.
    pub open spec fn spec_attr_len(&self, t: int) -> nat
        recommends
            self.is_entity(t),
    {
        self.fields_of(t).len()
    }

    /// The whole schema is well formed: every field kind of every type is.
    pub open spec fn wf(&self) -> bool {
        forall|t: int| 0 <= t < self.len() ==> #[trigger] type_wf(self.at(t), self.len() as int, t)
    }
}

/// A field kind is well formed when every reference target is declared and
/// every inline target is declared strictly earlier than `owner` (inline
/// nesting follows declaration order, so decoding it terminates).
pub open spec fn kind_wf(k: FieldKind, n: int, owner: int) -> bool
    decreases k,
{
    match k {
        FieldKind::Plain => true,
        FieldKind::RefTo(t) => t < n,
        FieldKind::Inline(t) => t < owner,
        FieldKind::ListOf(inner) => kind_wf(*inner, n, owner),
        FieldKind::OptionalOf(inner) => !(*inner is OptionalOf) && kind_wf(*inner, n, owner),
    }
}

/// A union variant may, beyond an ordinary field's obligations, only refer
/// at its top level to a type declared earlier than the union itself, so
/// that claiming an identifier through nested unions terminates.
pub open spec fn variant_kind_wf(k: FieldKind, n: int, owner: int) -> bool {
    kind_wf(k, n, owner) && match k {
        FieldKind::RefTo(t) => t < owner,
        _ => true,
    }
}

/// One declared type is well formed among `n` types when declared at
/// index `owner`.
pub open spec fn type_wf(td: TypeDef, n: int, owner: int) -> bool {
    match td {
        TypeDef::EntityType(e) => forall|j: int|
            0 <= j < e.fields@.len() ==> kind_wf(#[trigger] e.fields@[j], n, owner),
        TypeDef::UnionType(u) => (forall|j: int|
            0 <= j < u.variants@.len() ==> variant_kind_wf(#[trigger] u.variants@[j].kind, n, owner))
            && (forall|j1: int, j2: int|
            0 <= j1 < j2 < u.variants@.len() ==> (#[trigger] u.variants@[j1]).tag@ != (
            #[trigger] u.variants@[j2]).tag@),
    }
}

/// Well-formedness of a field kind is kept when the owner bound widens.
pub proof fn lemma_kind_wf_widen(k: FieldKind, n: int, a: int, b: int)
    requires
        kind_wf(k, n, a),
        a <= b,
    ensures
        kind_wf(k, n, b),
    decreases k,
{
    match k {
        FieldKind::ListOf(inner) => lemma_kind_wf_widen(*inner, n, a, b),
        FieldKind::OptionalOf(inner) => lemma_kind_wf_widen(*inner, n, a, b),
        _ => {},
    }
}

/// The table slot a union variant's payload would live in: the type its
/// kind refers to at top level, if any.
pub open spec fn variant_target(k: FieldKind) -> Option<usize> {
    match k {
        FieldKind::RefTo(t) => Some(t),
        FieldKind::Inline(t) => Some(t),
        _ => None,
    }
}

impl FieldKind {
    /// The type this kind refers to at its top level, if any.
    pub fn target(&self) -> (r: Option<usize>)
        ensures
            r == variant_target(*self),
    {
        match self {
            FieldKind::RefTo(t) => Some(*t),
            FieldKind::Inline(t) => Some(*t),
            _ => None,
        }
    }

    /// Decides `kind_wf` for this kind.
    pub fn check(&self, n: usize, owner: usize) -> (r: bool)
        ensures
            r == kind_wf(*self, n as int, owner as int),
        decreases kind_size(*self),
    {
        match self {
            FieldKind::Plain => true,
            FieldKind::RefTo(t) => *t < n,
            FieldKind::Inline(t) => *t < owner,
            FieldKind::ListOf(inner) => inner.check(n, owner),
            FieldKind::OptionalOf(inner) => {
                let nested: bool = match &**inner {
                    FieldKind::OptionalOf(_) => true,
                    _ => false,
                };
                !nested && inner.check(n, owner)
            },
        }
    }
}

impl Schema {
    /// The expected parameter count of the entity at index `t`.
    pub fn attr_len(&self, t: usize) -> (r: usize)
        requires
            self.is_entity(t as int),
        ensures
            r == self.spec_attr_len(t as int),
    {
        match &self.types[t] {
            TypeDef::EntityType(e) => e.fields.len(),
            TypeDef::UnionType(_) => vstd::pervasive::unreached(),
        }
    }

    /// The stable tag of the type at index `t`.
    pub fn name(&self, t: usize) -> (r: String)
        requires
            t < self.len(),
        ensures
            r@ == self.name_of(t as int),
    {
        match &self.types[t] {
            TypeDef::EntityType(e) => e.name.clone(),
            TypeDef::UnionType(u) => u.name.clone(),
        }
    }

    /// Decides well-formedness of the whole schema.
    pub fn check(&self) -> (r: bool)
        ensures
            r == self.wf(),
    {
        let n = self.types.len();
        let mut t: usize = 0;
        while t < n
            invariant
                n == self.len(),
                t <= n,
                forall|i: int| 0 <= i < t ==> #[trigger] type_wf(self.at(i), n as int, i),
            decreases n - t,
        {
            let ok = match &self.types[t] {
                TypeDef::EntityType(e) => {
                    let mut j: usize = 0;
                    let mut all = true;
                    while j < e.fields.len()
                        invariant
                            all == forall|i: int|
                                0 <= i < j ==> kind_wf(
                                    #[trigger] e.fields@[i],
                                    n as int,
                                    t as int,
                                ),
                            j <= e.fields@.len(),
                        decreases e.fields@.len() - j,
                    {
                        if !e.fields[j].check(n, t) {
                            all = false;
                        }
                        j += 1;
                    }
                    all
                }
                TypeDef::UnionType(u) => {
                    let mut j: usize = 0;
                    let mut all = true;
                    while j < u.variants.len()
                        invariant
                            all == ((forall|i: int|
                                0 <= i < j ==> variant_kind_wf(
                                    #[trigger] u.variants@[i].kind,
                                    n as int,
                                    t as int,
                                )) && (forall|i1: int, i2: int|
                                0 <= i1 < i2 < j ==> (#[trigger] u.variants@[i1]).tag@ != (
                                #[trigger] u.variants@[i2]).tag@)),
                            j <= u.variants@.len(),
                        decreases u.variants@.len() - j,
                    {
                        let vk = &u.variants[j].kind;
                        let mut kind_ok = vk.check(n, t);
                        if kind_ok {
                            match vk {
                                FieldKind::RefTo(tt) => {
                                    if !(*tt < t) {
                                        kind_ok = false;
                                    }
                                }
                                _ => {}
                            }
                        }
                        let mut tags_ok = true;
                        let mut i: usize = 0;
                        while i < j
                            invariant
                                i <= j,
                                j < u.variants@.len(),
                                tags_ok == forall|i1: int|
                                    0 <= i1 < i ==> (#[trigger] u.variants@[i1]).tag@
                                        != u.variants@[j as int].tag@,
                            decreases j - i,
                        {
                            if u.variants[i].tag == u.variants[j].tag {
                                tags_ok = false;
                            }
                            i += 1;
                        }
                        if !(kind_ok && tags_ok) {
                            all = false;
                        }
                        j += 1;
                    }
                    all
                }
            };
            if !ok {
                assert(!type_wf(self.at(t as int), n as int, t as int));
                return false;
            }
            t += 1;
        }
        true
    }
}

} // verus!
