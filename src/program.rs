use vstd::prelude::*;
use crate::account::{
    accounts_generable, accounts_result, generate_accounts, names_distinct, AccountError,
    AccountPlan,
};
use crate::dispatch::{
    distinct, events_result, generate_events, generate_ix_deser_structs,
    ix_discriminants, ix_table_result, DiscriminantCollision, DispatchEntry,
};
use crate::options::{
    assign_result, assign_struct_opts, assignment, conflicting, mentioned, opts_map, Bucket,
    Category, ConfigConflict, NamedOpts, Representation, ZeroCopy,
};
use crate::analysis::{
    check_definitions, check_fields, defs_resolve, first_dangling_def, first_dangling_layout,
    layouts_resolve, DanglingReference,
};
use crate::dispatch::{event_layouts, ix_layouts};
use crate::schema::{Event, Idl, Instruction, TypeDef};

verus! {

/// The generator's configuration: the interface definition's location and,
/// for each layout option, the type names that ask for it.
#[derive(Clone, Debug, Default)]
pub struct GeneratorOptions {
    /// Path to the interface definition.
    pub idl_path: String,
    /// Zero-copy structs.
    pub zero_copy: Vec<String>,
    /// Zero-copy structs of the legacy, unsafe kind.
    pub zero_copy_unsafe: Vec<String>,
    /// `repr(C)` structs.
    pub c_representation: Vec<String>,
    /// `repr(C, packed(8))` structs.
    pub c_packed_8_representation: Vec<String>,
    /// `repr(C, packed(16))` structs.
    pub c_packed_16_representation: Vec<String>,
    /// `repr(C, align(8))` structs.
    pub c_align_8_representation: Vec<String>,
    /// `repr(C, align(16))` structs.
    pub c_align_16_representation: Vec<String>,
    /// `repr(transparent)` structs.
    pub transparent_representation: Vec<String>,
    /// `repr(packed)` structs.
    pub packed_representation: Vec<String>,
    /// `repr(u8)` types.
    pub u8_representation: Vec<String>,
    /// `repr(u64)` types.
    pub u64_representation: Vec<String>,
    /// Structs with the compact encoding.
    pub borsh: Vec<String>,
}

/// The buckets that the options describe, one per category.
pub open spec fn option_buckets(o: GeneratorOptions) -> Seq<Bucket> {
    seq![
        Bucket { category: Category::Repr(Representation::C), names: o.c_representation },
        Bucket { category: Category::Repr(Representation::CPacked8), names: o.c_packed_8_representation },
        Bucket { category: Category::Repr(Representation::CPacked16), names: o.c_packed_16_representation },
        Bucket { category: Category::Repr(Representation::CAlign8), names: o.c_align_8_representation },
        Bucket { category: Category::Repr(Representation::CAlign16), names: o.c_align_16_representation },
        Bucket { category: Category::Repr(Representation::Transparent), names: o.transparent_representation },
        Bucket { category: Category::Repr(Representation::Packed), names: o.packed_representation },
        Bucket { category: Category::Repr(Representation::U8), names: o.u8_representation },
        Bucket { category: Category::Repr(Representation::U64), names: o.u64_representation },
        Bucket { category: Category::ZeroCopyMode(ZeroCopy::Safe), names: o.zero_copy },
        Bucket { category: Category::ZeroCopyMode(ZeroCopy::Unsafe), names: o.zero_copy_unsafe },
        Bucket { category: Category::CompactEncoding, names: o.borsh },
    ]
}

/// An interface definition with the layout options of its types.
pub struct Generator {
    pub idl: Idl,
    pub struct_opts: Vec<NamedOpts>,
}

impl Generator {
    /// Each type name has at most one set of options.
    pub open spec fn wf(&self) -> bool {
        names_distinct(self.struct_opts@)
    }
}

impl GeneratorOptions {
    /// The options as buckets of type names.
    pub fn buckets(self) -> (r: Vec<Bucket>)
        ensures
            r@ == option_buckets(self),
    {
        let r = vec![
            Bucket { category: Category::Repr(Representation::C), names: self.c_representation },
            Bucket { category: Category::Repr(Representation::CPacked8), names: self.c_packed_8_representation },
            Bucket { category: Category::Repr(Representation::CPacked16), names: self.c_packed_16_representation },
            Bucket { category: Category::Repr(Representation::CAlign8), names: self.c_align_8_representation },
            Bucket { category: Category::Repr(Representation::CAlign16), names: self.c_align_16_representation },
            Bucket { category: Category::Repr(Representation::Transparent), names: self.transparent_representation },
            Bucket { category: Category::Repr(Representation::Packed), names: self.packed_representation },
            Bucket { category: Category::Repr(Representation::U8), names: self.u8_representation },
            Bucket { category: Category::Repr(Representation::U64), names: self.u64_representation },
            Bucket { category: Category::ZeroCopyMode(ZeroCopy::Safe), names: self.zero_copy },
            Bucket { category: Category::ZeroCopyMode(ZeroCopy::Unsafe), names: self.zero_copy_unsafe },
            Bucket { category: Category::CompactEncoding, names: self.borsh },
        ];
        proof {
            assert(r@ =~= option_buckets(self));
        }
        r
    }

    /// Resolves the layout options of every configured type name and pairs
    /// them with the parsed interface definition.
    ///
    /// Fails where some configured name asks for two layouts or for both
    /// zero-copy modes, reporting every such name with its buckets.
    pub fn to_generator(self, idl: Idl) -> (r: Result<Generator, ConfigConflict>)
        ensures
            match r {
                Ok(g) => g.wf() && g.idl == idl && opts_map(g.struct_opts@) == assignment(
                    option_buckets(self),
                ) && forall|n: Seq<char>|
                    #[trigger] mentioned(option_buckets(self)).contains(n) ==> !conflicting(
                        option_buckets(self),
                        n,
                    ),
                Err(e) => assign_result(option_buckets(self), Err(e)),
            },
    {
        let cfg = self.buckets();
        match assign_struct_opts(&cfg) {
            Ok(struct_opts) => Ok(Generator { idl, struct_opts }),
            Err(e) => Err(e),
        }
    }
}

/// What the generator derives from an interface definition.
pub struct CpiInterface {
    pub accounts: Vec<AccountPlan>,
    pub instructions: Vec<DispatchEntry>,
    pub events: Option<Vec<DispatchEntry>>,
}

/// Why generation stops.
#[derive(Clone, Debug, PartialEq, Eq)]
pub enum GenerateError {
    /// A type reference of the schema names no definition.
    Dangling(DanglingReference),
    Account(AccountError),
    InstructionCollision(DiscriminantCollision),
    EventCollision(DiscriminantCollision),
}

/// Every name reachable from the instructions' arguments resolves.
fn check_instructions(defs: &Vec<TypeDef>, ixs: &Vec<Instruction>) -> (r: Result<(), DanglingReference>)
    ensures
        match r {
            Ok(()) => layouts_resolve(defs@, ix_layouts(ixs@), ixs@.len() as int),
            Err(e) => first_dangling_layout(defs@, ix_layouts(ixs@), e.name@),
        },
{
    let ghost ls = ix_layouts(ixs@);
    let mut i: usize = 0;
    while i < ixs.len()
        invariant
            0 <= i <= ixs@.len(),
            ls == ix_layouts(ixs@),
            layouts_resolve(defs@, ls, i as int),
        decreases ixs@.len() - i,
    {
        assert(ls[i as int] == ixs@[i as int].args@);
        match check_fields(defs, &ixs[i].args) {
            Err(e) => {
                return Err(e);
            },
            Ok(()) => {},
        }
        i = i + 1;
    }
    Ok(())
}

/// Every name reachable from the events' fields resolves.
fn check_events(defs: &Vec<TypeDef>, evs: &Vec<Event>) -> (r: Result<(), DanglingReference>)
    ensures
        match r {
            Ok(()) => layouts_resolve(defs@, event_layouts(evs@), evs@.len() as int),
            Err(e) => first_dangling_layout(defs@, event_layouts(evs@), e.name@),
        },
{
    let ghost ls = event_layouts(evs@);
    let mut i: usize = 0;
    while i < evs.len()
        invariant
            0 <= i <= evs@.len(),
            ls == event_layouts(evs@),
            layouts_resolve(defs@, ls, i as int),
        decreases evs@.len() - i,
    {
        assert(ls[i as int] == evs@[i as int].fields@);
        match check_fields(defs, &evs[i].fields) {
            Err(e) => {
                return Err(e);
            },
            Ok(()) => {},
        }
        i = i + 1;
    }
    Ok(())
}

/// Every name reachable from the events' fields, if any, resolves.
pub open spec fn events_resolve(defs: Seq<TypeDef>, events: Option<Vec<Event>>) -> bool {
    match events {
        None => true,
        Some(evs) => layouts_resolve(defs, event_layouts(evs@), evs@.len() as int),
    }
}

/// Every type reference of the schema resolves: in the type definitions,
/// the accounts, the instructions' arguments and the events' fields.
pub open spec fn references_resolve(idl: Idl) -> bool {
    &&& defs_resolve(idl.types@, idl.types@, idl.types@.len() as int)
    &&& accounts_generable(idl.types@, idl.accounts@, idl.accounts@.len() as int)
    &&& layouts_resolve(idl.types@, ix_layouts(idl.instructions@), idl.instructions@.len() as int)
    &&& events_resolve(idl.types@, idl.events)
}

/// `e` is the first dangling name met, checking the type definitions, then
/// (accounts being generable) the instructions, then the events.
pub open spec fn first_dangling(idl: Idl, e: Seq<char>) -> bool {
    ||| first_dangling_def(idl.types@, idl.types@, e)
    ||| (defs_resolve(idl.types@, idl.types@, idl.types@.len() as int) && accounts_generable(
        idl.types@,
        idl.accounts@,
        idl.accounts@.len() as int,
    ) && first_dangling_layout(idl.types@, ix_layouts(idl.instructions@), e))
    ||| (defs_resolve(idl.types@, idl.types@, idl.types@.len() as int) && accounts_generable(
        idl.types@,
        idl.accounts@,
        idl.accounts@.len() as int,
    ) && layouts_resolve(idl.types@, ix_layouts(idl.instructions@), idl.instructions@.len() as int)
        && match idl.events {
        Some(evs) => first_dangling_layout(idl.types@, event_layouts(evs@), e),
        None => false,
    })
}

/// What generating from `idl` with the options `opts` gives: every part,
/// or the first failure in the order of the steps.
pub open spec fn cpi_result(idl: Idl, opts: Seq<NamedOpts>, r: Result<CpiInterface, GenerateError>) -> bool {
    match r {
        Ok(c) => references_resolve(idl) && accounts_result(
            idl.types@,
            idl.accounts@,
            opts,
            Ok(c.accounts),
        ) && ix_table_result(idl.instructions@, Ok(c.instructions)) && events_result(
            idl.events,
            Ok(c.events),
        ),
        Err(GenerateError::Dangling(e)) => first_dangling(idl, e.name@),
        Err(GenerateError::Account(e)) => defs_resolve(
            idl.types@,
            idl.types@,
            idl.types@.len() as int,
        ) && accounts_result(
            idl.types@,
            idl.accounts@,
            opts,
            Err(e),
        ),
        Err(GenerateError::InstructionCollision(c)) => references_resolve(idl)
            && ix_table_result(idl.instructions@, Err(c)),
        Err(GenerateError::EventCollision(c)) => references_resolve(idl) && distinct(
            ix_discriminants(idl.instructions@),
        ) && events_result(
            idl.events,
            Err(c),
        ),
    }
}

impl Generator {
    /// Checks the type definitions, plans the accounts, checks the
    /// instructions' and events' references, then builds the instruction and
    /// the event dispatch tables; the first failure, in that order, stops
    /// generation, so success means every type reference resolves.
    pub fn generate_cpi_interface(&self) -> (r: Result<CpiInterface, GenerateError>)
        requires
            self.wf(),
        ensures
            cpi_result(self.idl, self.struct_opts@, r),
    {
        let idl = &self.idl;
        match check_definitions(&idl.types, &idl.types) {
            Err(e) => {
                return Err(GenerateError::Dangling(e));
            },
            Ok(()) => {},
        }
        let accounts = match generate_accounts(&idl.types, &idl.accounts, &self.struct_opts) {
            Ok(a) => a,
            Err(e) => {
                return Err(GenerateError::Account(e));
            },
        };
        match check_instructions(&idl.types, &idl.instructions) {
            Err(e) => {
                return Err(GenerateError::Dangling(e));
            },
            Ok(()) => {},
        }
        match &idl.events {
            Some(evs) => match check_events(&idl.types, evs) {
                Err(e) => {
                    return Err(GenerateError::Dangling(e));
                },
                Ok(()) => {},
            },
            None => {},
        }
        let instructions = match generate_ix_deser_structs(&idl.instructions) {
            Ok(t) => t,
            Err(c) => {
                return Err(GenerateError::InstructionCollision(c));
            },
        };
        let events = match generate_events(&idl.events) {
            Ok(t) => t,
            Err(c) => {
                return Err(GenerateError::EventCollision(c));
            },
        };
        Ok(CpiInterface { accounts, instructions, events })
    }
}

} // verus!
