use vstd::prelude::*;
use crate::schema::{def_index, find_def, ty_height, EnumVariant, Field, IdlType, TypeDef, TypeDefTy};

verus! {

/// A type reference names no definition of the schema.
#[derive(Clone, Debug, PartialEq, Eq)]
pub struct DanglingReference {
    pub name: String,
}

/// What the analysis finds of a list of fields.
#[derive(Clone, Copy, Debug, PartialEq, Eq, Structural)]
pub struct FieldListProperties {
    pub can_derive_default: bool,
}

/// Whether a zero or empty value of `t` can be synthesized, or the first
/// dangling name met, left to right.
///
/// Every name reachable from `t` is resolved, also under an option, a
/// vector, an empty array or an enum variant, which are default-able (an
/// enum is not) whatever they hold. `path` holds the definitions being expanded: a name met again on the
/// path is not default-able. A path as long as the schema cannot grow
/// without repeating a name, which stops the walk as well.
pub open spec fn ty_default(defs: Seq<TypeDef>, path: Seq<Seq<char>>, t: IdlType) -> Result<
    bool,
    Seq<char>,
>
    decreases defs.len() - path.len(), 0int, ty_height(t) as int,
{
    match t {
        IdlType::Optional(inner) => match ty_default(defs, path, *inner) {
            Err(e) => Err(e),
            Ok(_) => Ok(true),
        },
        IdlType::Vector(inner) => match ty_default(defs, path, *inner) {
            Err(e) => Err(e),
            Ok(_) => Ok(true),
        },
        IdlType::Array(inner, len) => match ty_default(defs, path, *inner) {
            Err(e) => Err(e),
            Ok(b) => Ok(len == 0 || b),
        },
        IdlType::Defined(n) => match def_index(defs, n@) {
            None => Err(n@),
            Some(i) => if path.contains(n@) || path.len() >= defs.len() {
                Ok(false)
            } else {
                match defs[i].ty {
                    TypeDefTy::Struct { fields } => fields_default(
                        defs,
                        path.push(n@),
                        fields@,
                        0,
                    ),
                    TypeDefTy::Enum { variants } => match variants_default(
                        defs,
                        path.push(n@),
                        variants@,
                        0,
                    ) {
                        Err(e) => Err(e),
                        Ok(_) => Ok(false),
                    },
                    TypeDefTy::Alias { target } => ty_default(defs, path.push(n@), target),
                }
            },
        },
        _ => Ok(true),
    }
}

/// The conjunction over `fields[i..]`, or the first dangling name met.
pub open spec fn fields_default(
    defs: Seq<TypeDef>,
    path: Seq<Seq<char>>,
    fields: Seq<Field>,
    i: int,
) -> Result<bool, Seq<char>>
    decreases defs.len() - path.len(), 1int, fields.len() - i,
{
    if i < 0 || i >= fields.len() {
        Ok(true)
    } else {
        match ty_default(defs, path, fields[i].ty) {
            Err(e) => Err(e),
            Ok(b) => match fields_default(defs, path, fields, i + 1) {
                Err(e) => Err(e),
                Ok(c) => Ok(b && c),
            },
        }
    }
}

/// Whether the fields of every variant of `vs[i..]` are default-able, or
/// the first dangling name met.
pub open spec fn variants_default(
    defs: Seq<TypeDef>,
    path: Seq<Seq<char>>,
    vs: Seq<EnumVariant>,
    i: int,
) -> Result<bool, Seq<char>>
    decreases defs.len() - path.len(), 2int, vs.len() - i,
{
    if i < 0 || i >= vs.len() {
        Ok(true)
    } else {
        match fields_default(defs, path, vs[i].fields@, 0) {
            Err(e) => Err(e),
            Ok(b) => match variants_default(defs, path, vs, i + 1) {
                Err(e) => Err(e),
                Ok(c) => Ok(b && c),
            },
        }
    }
}

pub open spec fn names_of(v: Seq<String>) -> Seq<Seq<char>> {
    v.map_values(|s: String| s@)
}

pub open spec fn result_view(r: Result<bool, DanglingReference>) -> Result<bool, Seq<char>> {
    match r {
        Ok(b) => Ok(b),
        Err(e) => Err(e.name@),
    }
}

fn path_contains(path: &Vec<String>, n: &String) -> (r: bool)
    ensures
        r == names_of(path@).contains(n@),
{
    let mut i: usize = 0;
    while i < path.len()
        invariant
            0 <= i <= path@.len(),
            forall|j: int| 0 <= j < i ==> #[trigger] path@[j]@ != n@,
        decreases path@.len() - i,
    {
        if path[i] == *n {
            assert(names_of(path@)[i as int] == n@);
            return true;
        }
        i = i + 1;
    }
    proof {
        if names_of(path@).contains(n@) {
            let k = choose|k: int| 0 <= k < names_of(path@).len() && names_of(path@)[k] == n@;
            assert(path@[k]@ == n@);
        }
    }
    false
}

/// Whether a value of type `t` can be given a default, with `path` the
/// definitions being expanded.
pub fn type_can_default(defs: &Vec<TypeDef>, path: &mut Vec<String>, t: &IdlType) -> (r: Result<
    bool,
    DanglingReference,
>)
    ensures
        final(path)@ == old(path)@,
        result_view(r) == ty_default(defs@, names_of(old(path)@), *t),
    decreases defs@.len() - old(path)@.len(), 0int, ty_height(*t) as int,
{
    match t {
        IdlType::Optional(inner) => match type_can_default(defs, path, &**inner) {
            Err(e) => Err(e),
            Ok(_) => Ok(true),
        },
        IdlType::Vector(inner) => match type_can_default(defs, path, &**inner) {
            Err(e) => Err(e),
            Ok(_) => Ok(true),
        },
        IdlType::Array(inner, len) => match type_can_default(defs, path, &**inner) {
            Err(e) => Err(e),
            Ok(b) => Ok(*len == 0 || b),
        },
        IdlType::Defined(n) => {
            match find_def(defs, n) {
                None => Err(DanglingReference { name: n.clone() }),
                Some(i) => {
                    if path_contains(path, n) || path.len() >= defs.len() {
                        Ok(false)
                    } else {
                        let ghost before = path@;
                        path.push(n.clone());
                        proof {
                            assert(names_of(path@) == names_of(before).push(n@));
                        }
                        let r = match &defs[i].ty {
                            TypeDefTy::Struct { fields } => fields_can_default(defs, path, fields, 0),
                            TypeDefTy::Enum { variants } => match variants_can_default(defs, path, variants, 0) {
                                Err(e) => Err(e),
                                Ok(_) => Ok(false),
                            },
                            TypeDefTy::Alias { target } => type_can_default(defs, path, target),
                        };
                        path.pop();
                        proof {
                            assert(path@ =~= before);
                        }
                        r
                    }
                }
            }
        },
        _ => Ok(true),
    }
}

/// Whether every field of `fields[i..]` can be given a default.
pub fn fields_can_default(
    defs: &Vec<TypeDef>,
    path: &mut Vec<String>,
    fields: &Vec<Field>,
    i: usize,
) -> (r: Result<bool, DanglingReference>)
    ensures
        final(path)@ == old(path)@,
        result_view(r) == fields_default(defs@, names_of(old(path)@), fields@, i as int),
    decreases defs@.len() - old(path)@.len(), 1int, fields@.len() - i,
{
    if i >= fields.len() {
        Ok(true)
    } else {
        match type_can_default(defs, path, &fields[i].ty) {
            Err(e) => Err(e),
            Ok(b) => match fields_can_default(defs, path, fields, i + 1) {
                Err(e) => Err(e),
                Ok(c) => Ok(b && c),
            },
        }
    }
}

/// Whether the fields of every variant of `vs[i..]` are default-able.
pub fn variants_can_default(
    defs: &Vec<TypeDef>,
    path: &mut Vec<String>,
    vs: &Vec<EnumVariant>,
    i: usize,
) -> (r: Result<bool, DanglingReference>)
    ensures
        final(path)@ == old(path)@,
        result_view(r) == variants_default(defs@, names_of(old(path)@), vs@, i as int),
    decreases defs@.len() - old(path)@.len(), 2int, vs@.len() - i,
{
    if i >= vs.len() {
        Ok(true)
    } else {
        match fields_can_default(defs, path, &vs[i].fields, 0) {
            Err(e) => Err(e),
            Ok(b) => match variants_can_default(defs, path, vs, i + 1) {
                Err(e) => Err(e),
                Ok(c) => Ok(b && c),
            },
        }
    }
}

/// Properties of a list of fields, analysed against the schema's definitions.
pub fn get_field_list_properties(defs: &Vec<TypeDef>, fields: &Vec<Field>) -> (r: Result<
    FieldListProperties,
    DanglingReference,
>)
    ensures
        match r {
            Ok(p) => fields_default(defs@, seq![], fields@, 0) == Ok::<bool, Seq<char>>(
                p.can_derive_default,
            ),
            Err(e) => fields_default(defs@, seq![], fields@, 0) == Err::<bool, Seq<char>>(
                e.name@,
            ),
        },
{
    let mut path: Vec<String> = Vec::new();
    proof {
        assert(names_of(path@) =~= seq![]);
    }
    match fields_can_default(defs, &mut path, fields, 0) {
        Ok(b) => Ok(FieldListProperties { can_derive_default: b }),
        Err(e) => Err(e),
    }
}


/// What the analysis of a definition's body gives.
pub open spec fn def_body_default(defs: Seq<TypeDef>, d: TypeDef) -> Result<bool, Seq<char>> {
    match d.ty {
        TypeDefTy::Struct { fields } => fields_default(defs, seq![], fields@, 0),
        TypeDefTy::Enum { variants } => variants_default(defs, seq![], variants@, 0),
        TypeDefTy::Alias { target } => ty_default(defs, seq![], target),
    }
}

/// Every name reachable from the first `upto` definitions of `items` resolves.
pub open spec fn defs_resolve(defs: Seq<TypeDef>, items: Seq<TypeDef>, upto: int) -> bool {
    forall|i: int| 0 <= i < upto ==> #[trigger] def_body_default(defs, items[i]) is Ok
}

/// Every name reachable from the first `upto` field lists resolves.
pub open spec fn layouts_resolve(defs: Seq<TypeDef>, ls: Seq<Seq<Field>>, upto: int) -> bool {
    forall|i: int| 0 <= i < upto ==> #[trigger] fields_default(defs, seq![], ls[i], 0) is Ok
}

/// `e` is the dangling name of the first definition of `items` that has one.
pub open spec fn first_dangling_def(defs: Seq<TypeDef>, items: Seq<TypeDef>, e: Seq<char>) -> bool {
    exists|i: int|
        0 <= i < items.len() && #[trigger] def_body_default(defs, items[i]) == Err::<bool, Seq<char>>(e)
            && defs_resolve(defs, items, i)
}

/// `e` is the dangling name of the first field list of `ls` that has one.
pub open spec fn first_dangling_layout(defs: Seq<TypeDef>, ls: Seq<Seq<Field>>, e: Seq<char>) -> bool {
    exists|i: int|
        0 <= i < ls.len() && #[trigger] fields_default(defs, seq![], ls[i], 0) == Err::<bool, Seq<char>>(e)
            && layouts_resolve(defs, ls, i)
}

fn def_body_can_default(defs: &Vec<TypeDef>, d: &TypeDef) -> (r: Result<bool, DanglingReference>)
    ensures
        result_view(r) == def_body_default(defs@, *d),
{
    let mut path: Vec<String> = Vec::new();
    proof {
        assert(names_of(path@) =~= seq![]);
    }
    match &d.ty {
        TypeDefTy::Struct { fields } => fields_can_default(defs, &mut path, fields, 0),
        TypeDefTy::Enum { variants } => variants_can_default(defs, &mut path, variants, 0),
        TypeDefTy::Alias { target } => type_can_default(defs, &mut path, target),
    }
}

/// Checks that every name reachable from the definitions `items` resolves
/// in `defs`; else reports the first dangling one.
pub fn check_definitions(defs: &Vec<TypeDef>, items: &Vec<TypeDef>) -> (r: Result<(), DanglingReference>)
    ensures
        match r {
            Ok(()) => defs_resolve(defs@, items@, items@.len() as int),
            Err(e) => first_dangling_def(defs@, items@, e.name@),
        },
{
    let mut i: usize = 0;
    while i < items.len()
        invariant
            0 <= i <= items@.len(),
            defs_resolve(defs@, items@, i as int),
        decreases items@.len() - i,
    {
        match def_body_can_default(defs, &items[i]) {
            Err(e) => {
                return Err(e);
            },
            Ok(_) => {},
        }
        i = i + 1;
    }
    Ok(())
}

/// Checks that every name reachable from one field list resolves.
pub fn check_fields(defs: &Vec<TypeDef>, fields: &Vec<Field>) -> (r: Result<(), DanglingReference>)
    ensures
        match r {
            Ok(()) => fields_default(defs@, seq![], fields@, 0) is Ok,
            Err(e) => fields_default(defs@, seq![], fields@, 0) == Err::<bool, Seq<char>>(e.name@),
        },
{
    match get_field_list_properties(defs, fields) {
        Ok(_) => Ok(()),
        Err(e) => Err(e),
    }
}

} // verus!
