use vstd::prelude::*;
use crate::analysis::{fields_default, get_field_list_properties, DanglingReference};
use crate::discriminant::{pascal_case, pascal_case_of};
use crate::options::{opts_map, NamedOpts, StructOpts};
use crate::schema::{Field, TypeDef, TypeDefTy};

verus! {

/// What the declaration of an account type carries.
#[derive(Clone, Debug)]
pub struct AccountPlan {
    /// The type's name, in Pascal case.
    pub struct_name: String,
    /// The resolved layout options.
    pub opts: StructOpts,
    /// Whether `Default` is derived: every field can be given a default.
    pub derive_default: bool,
    /// Whether the plain account encoding and `Clone` are derived: the type
    /// has neither a zero-copy mode nor a representation.
    pub derive_account_encoding: bool,
    /// Whether the compact encoding is derived.
    pub derive_compact_encoding: bool,
    /// Whether `Clone` comes with the compact encoding: zero-copy types
    /// already have it.
    pub derive_compact_clone: bool,
}

/// The plan of an account whose fields are `fields`, or `None` where the
/// analysis of its fields does not succeed.
pub open spec fn account_plan_ok(
    defs: Seq<TypeDef>,
    name: Seq<char>,
    fields: Seq<Field>,
    opts: StructOpts,
    p: AccountPlan,
) -> bool {
    &&& p.struct_name@ == pascal_case_of(name)
    &&& p.opts == opts
    &&& fields_default(defs, seq![], fields, 0) == Ok::<bool, Seq<char>>(p.derive_default)
    &&& p.derive_account_encoding == (opts.zero_copy is None && opts.representation is None)
    &&& p.derive_compact_encoding == opts.can_borsh
    &&& p.derive_compact_clone == (opts.can_borsh && opts.zero_copy is None)
}

/// Plans the declaration of one account type.
pub fn generate_account(
    defs: &Vec<TypeDef>,
    account_name: &str,
    fields: &Vec<Field>,
    opts: StructOpts,
) -> (r: Result<AccountPlan, DanglingReference>)
    ensures
        match r {
            Ok(p) => account_plan_ok(defs@, account_name@, fields@, opts, p),
            Err(e) => fields_default(defs@, seq![], fields@, 0) == Err::<bool, Seq<char>>(
                e.name@,
            ),
        },
{
    let props = match get_field_list_properties(defs, fields) {
        Ok(p) => p,
        Err(e) => {
            return Err(e);
        },
    };
    let no_zero_copy = match opts.zero_copy {
        Some(_) => false,
        None => true,
    };
    let no_repr = match opts.representation {
        Some(_) => false,
        None => true,
    };
    Ok(
        AccountPlan {
            struct_name: pascal_case(account_name),
            opts,
            derive_default: props.can_derive_default,
            derive_account_encoding: no_zero_copy && no_repr,
            derive_compact_encoding: opts.can_borsh,
            derive_compact_clone: opts.can_borsh && no_zero_copy,
        },
    )
}

/// The names of an assignment are pairwise distinct.
pub open spec fn names_distinct(v: Seq<NamedOpts>) -> bool {
    forall|i: int, k: int| #![trigger v[i], v[k]] 0 <= i < k < v.len() ==> v[i].name@ != v[k].name@
}

/// The options of a name: those assigned to it, or the baseline.
pub open spec fn opts_for(v: Seq<NamedOpts>, n: Seq<char>) -> StructOpts {
    if opts_map(v).contains_key(n) {
        opts_map(v)[n]
    } else {
        StructOpts::baseline()
    }
}

/// Looks the options of a type name up in an assignment.
pub fn lookup_opts(v: &Vec<NamedOpts>, n: &String) -> (r: StructOpts)
    requires
        names_distinct(v@),
    ensures
        r == opts_for(v@, n@),
{
    let mut i: usize = 0;
    while i < v.len()
        invariant
            0 <= i <= v@.len(),
            names_distinct(v@),
            forall|k: int| 0 <= k < i ==> #[trigger] v@[k].name@ != n@,
        decreases v@.len() - i,
    {
        if v[i].name == *n {
            proof {
                assert(opts_map(v@).contains_key(n@));
                let c = choose|c: int| 0 <= c < v@.len() && #[trigger] v@[c].name@ == n@;
                assert(c == i) by {
                    if c < i {
                        assert(v@[c].name@ != n@);
                    }
                    if c > i {
                        assert(v@[i as int].name@ != v@[c].name@);
                    }
                }
            }
            return v[i].opts;
        }
        i = i + 1;
    }
    proof {
        assert(!opts_map(v@).contains_key(n@));
    }
    StructOpts::default()
}

/// Why an account cannot be generated.
#[derive(Clone, Debug, PartialEq, Eq)]
pub enum AccountError {
    /// The account at this index is an enum or an alias, not a struct.
    UnsupportedShape { index: usize, name: String },
    /// A field refers to a type the schema lacks.
    Dangling(DanglingReference),
}

/// The plans of the accounts `accounts[..upto]`, where each is a struct whose
/// fields analyse without a dangling reference.
pub open spec fn accounts_ok(
    typedefs: Seq<TypeDef>,
    accounts: Seq<TypeDef>,
    opts: Seq<NamedOpts>,
    plans: Seq<AccountPlan>,
    upto: int,
) -> bool {
    plans.len() == upto && forall|i: int|
        0 <= i < upto ==> match #[trigger] accounts[i].ty {
            TypeDefTy::Struct { fields } => account_plan_ok(
                typedefs,
                accounts[i].name@,
                fields@,
                opts_for(opts, accounts[i].name@),
                plans[i],
            ),
            _ => false,
        }
}

/// The first account, in order, that cannot be generated, with its error.
pub open spec fn account_fails(
    typedefs: Seq<TypeDef>,
    accounts: Seq<TypeDef>,
    i: int,
    e: AccountError,
) -> bool {
    match accounts[i].ty {
        TypeDefTy::Struct { fields } => match e {
            AccountError::Dangling(d) => fields_default(typedefs, seq![], fields@, 0) == Err::<
                bool,
                Seq<char>,
            >(d.name@),
            _ => false,
        },
        _ => e == AccountError::UnsupportedShape { index: i as usize, name: accounts[i].name },
    }
}

/// Every account is a struct whose fields analyse without a dangling reference.
pub open spec fn accounts_generable(typedefs: Seq<TypeDef>, accounts: Seq<TypeDef>, upto: int) -> bool {
    forall|k: int|
        0 <= k < upto ==> #[trigger] accounts[k].ty is Struct && fields_default(
            typedefs,
            seq![],
            accounts[k].ty->Struct_fields@,
            0,
        ) is Ok
}

/// What planning the accounts gives: every plan, or the first failure.
pub open spec fn accounts_result(
    typedefs: Seq<TypeDef>,
    accounts: Seq<TypeDef>,
    opts: Seq<NamedOpts>,
    r: Result<Vec<AccountPlan>, AccountError>,
) -> bool {
    match r {
        Ok(plans) => accounts_ok(typedefs, accounts, opts, plans@, accounts.len() as int),
        Err(e) => exists|i: int|
            0 <= i < accounts.len() && account_fails(typedefs, accounts, i, e)
                && accounts_generable(typedefs, accounts, i),
    }
}

/// Plans every account type, in order; an account that is an enum or an
/// alias, or whose fields refer to a missing type, stops the generation.
pub fn generate_accounts(
    typedefs: &Vec<TypeDef>,
    account_defs: &Vec<TypeDef>,
    struct_opts: &Vec<NamedOpts>,
) -> (r: Result<Vec<AccountPlan>, AccountError>)
    requires
        names_distinct(struct_opts@),
    ensures
        accounts_result(typedefs@, account_defs@, struct_opts@, r),
{
    let mut plans: Vec<AccountPlan> = Vec::new();
    let mut i: usize = 0;
    while i < account_defs.len()
        invariant
            0 <= i <= account_defs@.len(),
            names_distinct(struct_opts@),
            accounts_ok(typedefs@, account_defs@, struct_opts@, plans@, i as int),
            accounts_generable(typedefs@, account_defs@, i as int),
        decreases account_defs@.len() - i,
    {
        let def = &account_defs[i];
        match &def.ty {
            TypeDefTy::Struct { fields } => {
                let opts = lookup_opts(struct_opts, &def.name);
                match generate_account(typedefs, def.name.as_str(), fields, opts) {
                    Ok(p) => {
                        let ghost prev = plans@;
                        plans.push(p);
                        proof {
                            assert forall|k: int| 0 <= k < i + 1 implies match #[trigger] account_defs@[k].ty {
                                TypeDefTy::Struct { fields } => account_plan_ok(
                                    typedefs@,
                                    account_defs@[k].name@,
                                    fields@,
                                    opts_for(struct_opts@, account_defs@[k].name@),
                                    plans@[k],
                                ),
                                _ => false,
                            } by {
                                if k < i {
                                    assert(plans@[k] == prev[k]);
                                }
                            }
                            assert(accounts_generable(typedefs@, account_defs@, i + 1));
                        }
                    },
                    Err(e) => {
                        let err = AccountError::Dangling(e);
                        proof {
                            assert(account_fails(typedefs@, account_defs@, i as int, err));
                            assert(accounts_generable(typedefs@, account_defs@, i as int));
                        }
                        return Err(err);
                    },
                }
            },
            _ => {
                let err = AccountError::UnsupportedShape { index: i, name: def.name.clone() };
                proof {
                    assert(account_fails(typedefs@, account_defs@, i as int, err));
                }
                return Err(err);
            },
        }
        i = i + 1;
    }
    Ok(plans)
}

} // verus!
