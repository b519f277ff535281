use vstd::prelude::*;

verus! {

/// The declared type of a field.
#[derive(Debug, PartialEq, Eq)]
pub enum IdlType {
    Bool,
    U8,
    I8,
    U16,
    I16,
    U32,
    I32,
    U64,
    I64,
    U128,
    I128,
    /// A length-prefixed byte string.
    Bytes,
    /// A length-prefixed UTF-8 string.
    Text,
    /// A 32-byte public key.
    PublicKey,
    /// A reference, by name, to a type definition of the schema.
    Defined(String),
    Optional(Box<IdlType>),
    /// A length-prefixed sequence.
    Vector(Box<IdlType>),
    /// A sequence of a fixed length.
    Array(Box<IdlType>, usize),
}

/// A named, typed field; the order of fields is the order of their bytes.
#[derive(Clone, Debug, PartialEq, Eq)]
pub struct Field {
    pub name: String,
    pub ty: IdlType,
}

/// One variant of an enum definition, with its fields (none for a unit variant).
#[derive(Clone, Debug, PartialEq, Eq)]
pub struct EnumVariant {
    pub name: String,
    pub fields: Vec<Field>,
}

/// The body of a type definition.
#[derive(Clone, Debug, PartialEq, Eq)]
pub enum TypeDefTy {
    Struct { fields: Vec<Field> },
    Enum { variants: Vec<EnumVariant> },
    Alias { target: IdlType },
}

/// A named type definition of the schema.
#[derive(Clone, Debug, PartialEq, Eq)]
pub struct TypeDef {
    pub name: String,
    pub ty: TypeDefTy,
}

/// An instruction and its arguments.
#[derive(Clone, Debug, PartialEq, Eq)]
pub struct Instruction {
    pub name: String,
    pub args: Vec<Field>,
}

/// An event and its fields.
#[derive(Clone, Debug, PartialEq, Eq)]
pub struct Event {
    pub name: String,
    pub fields: Vec<Field>,
}

/// A parsed interface definition.
#[derive(Clone, Debug, PartialEq, Eq)]
pub struct Idl {
    pub name: String,
    pub version: String,
    pub types: Vec<TypeDef>,
    pub accounts: Vec<TypeDef>,
    pub instructions: Vec<Instruction>,
    pub events: Option<Vec<Event>>,
}

impl Clone for IdlType {
    fn clone(&self) -> (r: IdlType)
        ensures
            r == *self,
        decreases self,
    {
        match self {
            IdlType::Bool => IdlType::Bool,
            IdlType::U8 => IdlType::U8,
            IdlType::I8 => IdlType::I8,
            IdlType::U16 => IdlType::U16,
            IdlType::I16 => IdlType::I16,
            IdlType::U32 => IdlType::U32,
            IdlType::I32 => IdlType::I32,
            IdlType::U64 => IdlType::U64,
            IdlType::I64 => IdlType::I64,
            IdlType::U128 => IdlType::U128,
            IdlType::I128 => IdlType::I128,
            IdlType::Bytes => IdlType::Bytes,
            IdlType::Text => IdlType::Text,
            IdlType::PublicKey => IdlType::PublicKey,
            IdlType::Defined(n) => IdlType::Defined(n.clone()),
            IdlType::Optional(inner) => IdlType::Optional(Box::new((**inner).clone())),
            IdlType::Vector(inner) => IdlType::Vector(Box::new((**inner).clone())),
            IdlType::Array(inner, len) => IdlType::Array(Box::new((**inner).clone()), *len),
        }
    }
}

/// The nesting depth of a type.
pub open spec fn ty_height(t: IdlType) -> nat
    decreases t,
{
    match t {
        IdlType::Optional(inner) => 1 + ty_height(*inner),
        IdlType::Vector(inner) => 1 + ty_height(*inner),
        IdlType::Array(inner, _) => 1 + ty_height(*inner),
        _ => 0,
    }
}

/// The names of the definitions.
pub open spec fn def_names(defs: Seq<TypeDef>) -> Seq<Seq<char>> {
    defs.map_values(|d: TypeDef| d.name@)
}

/// `i` is the first definition named `n`.
pub open spec fn first_def(defs: Seq<TypeDef>, n: Seq<char>, i: int) -> bool {
    0 <= i < defs.len() && defs[i].name@ == n && forall|j: int|
        0 <= j < i ==> #[trigger] defs[j].name@ != n
}

/// The definition a name resolves to: the first one of that name.
pub open spec fn def_index(defs: Seq<TypeDef>, n: Seq<char>) -> Option<int> {
    if exists|i: int| first_def(defs, n, i) {
        Some(choose|i: int| first_def(defs, n, i))
    } else {
        None
    }
}

proof fn lemma_first_exists(defs: Seq<TypeDef>, n: Seq<char>, i: int)
    requires
        0 <= i < defs.len(),
        defs[i].name@ == n,
    ensures
        exists|k: int| first_def(defs, n, k),
    decreases i,
{
    if exists|j: int| 0 <= j < i && #[trigger] defs[j].name@ == n {
        let j = choose|j: int| 0 <= j < i && #[trigger] defs[j].name@ == n;
        lemma_first_exists(defs, n, j);
    } else {
        assert(first_def(defs, n, i));
    }
}

/// Looks a definition up by name.
pub fn find_def(defs: &Vec<TypeDef>, n: &String) -> (r: Option<usize>)
    ensures
        match r {
            Some(i) => def_index(defs@, n@) == Some(i as int),
            None => def_index(defs@, n@) is None,
        },
{
    let mut i: usize = 0;
    while i < defs.len()
        invariant
            0 <= i <= defs@.len(),
            forall|j: int| 0 <= j < i ==> #[trigger] defs@[j].name@ != n@,
        decreases defs@.len() - i,
    {
        if defs[i].name == *n {
            proof {
                assert(first_def(defs@, n@, i as int));
                let k = choose|k: int| first_def(defs@, n@, k);
                assert(k == i) by {
                    if k < i {
                        assert(defs@[k].name@ != n@);
                    }
                    if k > i {
                        assert(defs@[i as int].name@ != n@);
                    }
                }
            }
            return Some(i);
        }
        i = i + 1;
    }
    None
}

} // verus!
