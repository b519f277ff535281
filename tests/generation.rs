use anchor_idl::account::{generate_account, generate_accounts, lookup_opts, AccountError};
use anchor_idl::analysis::{get_field_list_properties, DanglingReference};
use anchor_idl::dispatch::{format_ix_name, generate_ix_handler, generate_ix_handlers, HandlerArg};
use anchor_idl::options::{
    assign_struct_opts, Bucket, Category, NameConflict, NamedOpts, Representation, StructOpts,
    ZeroCopy,
};
use anchor_idl::program::{GenerateError, GeneratorOptions};
use anchor_idl::schema::{EnumVariant, Event, Field, Idl, IdlType, Instruction, TypeDef, TypeDefTy};

fn field(name: &str, ty: IdlType) -> Field {
    Field { name: name.to_string(), ty }
}

fn names(v: &[&str]) -> Vec<String> {
    v.iter().map(|s| s.to_string()).collect()
}

fn bucket(category: Category, v: &[&str]) -> Bucket {
    Bucket { category, names: names(v) }
}

fn find(v: &[NamedOpts], name: &str) -> StructOpts {
    v.iter().find(|o| o.name == name).unwrap().opts
}

fn defined(name: &str) -> IdlType {
    IdlType::Defined(name.to_string())
}

fn schema() -> Vec<TypeDef> {
    vec![
        TypeDef {
            name: "Side".to_string(),
            ty: TypeDefTy::Enum {
                variants: vec![
                    EnumVariant { name: "Bid".to_string(), fields: vec![] },
                    EnumVariant { name: "Ask".to_string(), fields: vec![] },
                ],
            },
        },
        TypeDef {
            name: "Fees".to_string(),
            ty: TypeDefTy::Struct { fields: vec![field("rate", IdlType::U16), field("key", IdlType::PublicKey)] },
        },
        TypeDef { name: "Amount".to_string(), ty: TypeDefTy::Alias { target: IdlType::U64 } },
        TypeDef {
            name: "Node".to_string(),
            ty: TypeDefTy::Struct { fields: vec![field("next", defined("Node"))] },
        },
    ]
}

fn conflict<'a>(v: &'a [NameConflict], name: &str) -> &'a NameConflict {
    v.iter().find(|c| c.name == name).unwrap()
}

#[test]
fn layout_overlap_is_a_conflict_naming_the_type() {
    let cfg = vec![
        bucket(Category::Repr(Representation::C), &["Pool", "Vault"]),
        bucket(Category::Repr(Representation::Packed), &["Vault"]),
    ];
    let err = assign_struct_opts(&cfg).unwrap_err();
    assert_eq!(err.conflicts.len(), 1);
    let c = conflict(&err.conflicts, "Vault");
    assert!(c.layout);
    assert!(!c.zero_copy);
    assert!(c.buckets.contains(&Category::Repr(Representation::C)));
    assert!(c.buckets.contains(&Category::Repr(Representation::Packed)));
    assert_eq!(c.buckets.len(), 2);
}

#[test]
fn both_zero_copy_modes_conflict() {
    let cfg = vec![
        bucket(Category::ZeroCopyMode(ZeroCopy::Safe), &["Pool"]),
        bucket(Category::ZeroCopyMode(ZeroCopy::Unsafe), &["Pool"]),
    ];
    let err = assign_struct_opts(&cfg).unwrap_err();
    let c = conflict(&err.conflicts, "Pool");
    assert!(!c.layout);
    assert!(c.zero_copy);
    assert!(c.buckets.contains(&Category::ZeroCopyMode(ZeroCopy::Safe)));
    assert!(c.buckets.contains(&Category::ZeroCopyMode(ZeroCopy::Unsafe)));
}

#[test]
fn layout_and_zero_copy_conflicts_are_both_reported() {
    let cfg = vec![
        bucket(Category::Repr(Representation::U8), &["Pool"]),
        bucket(Category::ZeroCopyMode(ZeroCopy::Safe), &["Pool"]),
        bucket(Category::Repr(Representation::U64), &["Pool"]),
        bucket(Category::ZeroCopyMode(ZeroCopy::Unsafe), &["Pool"]),
        bucket(Category::CompactEncoding, &["Pool"]),
    ];
    let err = assign_struct_opts(&cfg).unwrap_err();
    let c = conflict(&err.conflicts, "Pool");
    assert!(c.layout && c.zero_copy);
    assert_eq!(c.buckets.len(), 4);
    assert!(!c.buckets.contains(&Category::CompactEncoding));
}

#[test]
fn every_conflicting_name_is_reported_whatever_the_order() {
    let ab = vec![
        bucket(Category::Repr(Representation::C), &["A", "B"]),
        bucket(Category::Repr(Representation::Packed), &["A", "B"]),
    ];
    let ba = vec![
        bucket(Category::Repr(Representation::C), &["B", "A"]),
        bucket(Category::Repr(Representation::Packed), &["B", "A"]),
    ];
    for cfg in [ab, ba] {
        let err = assign_struct_opts(&cfg).unwrap_err();
        assert_eq!(err.conflicts.len(), 2);
        assert!(conflict(&err.conflicts, "A").layout);
        assert!(conflict(&err.conflicts, "B").layout);
    }
}

#[test]
fn disjoint_buckets_are_merged_per_name() {
    let cfg = vec![
        bucket(Category::Repr(Representation::CAlign8), &["Pool"]),
        bucket(Category::ZeroCopyMode(ZeroCopy::Safe), &["Pool", "Oracle"]),
        bucket(Category::ZeroCopyMode(ZeroCopy::Unsafe), &["Legacy"]),
        bucket(Category::CompactEncoding, &["Oracle", "Config"]),
        bucket(Category::Repr(Representation::CAlign8), &["Pool"]),
    ];
    let v = assign_struct_opts(&cfg).unwrap();
    assert_eq!(v.len(), 4);
    assert_eq!(
        find(&v, "Pool"),
        StructOpts { representation: Some(Representation::CAlign8), zero_copy: Some(ZeroCopy::Safe), can_borsh: false }
    );
    assert_eq!(
        find(&v, "Oracle"),
        StructOpts { representation: None, zero_copy: Some(ZeroCopy::Safe), can_borsh: true }
    );
    assert_eq!(
        find(&v, "Legacy"),
        StructOpts { representation: None, zero_copy: Some(ZeroCopy::Unsafe), can_borsh: false }
    );
    assert_eq!(find(&v, "Config"), StructOpts { representation: None, zero_copy: None, can_borsh: true });
    assert_eq!(lookup_opts(&v, &"Missing".to_string()), StructOpts::default());
}

#[test]
fn assignment_is_deterministic() {
    let cfg = vec![
        bucket(Category::Repr(Representation::Transparent), &["A"]),
        bucket(Category::CompactEncoding, &["B", "A"]),
    ];
    let a = assign_struct_opts(&cfg).unwrap();
    let b = assign_struct_opts(&cfg).unwrap();
    for o in &a {
        assert_eq!(o.opts, find(&b, &o.name));
    }
    assert_eq!(a.len(), b.len());
}

#[test]
fn primitive_struct_is_default_able() {
    let fields = vec![field("a", IdlType::U64), field("b", IdlType::Bool), field("c", IdlType::Text)];
    assert!(get_field_list_properties(&schema(), &fields).unwrap().can_derive_default);
}

#[test]
fn array_of_enum_is_not_default_able() {
    let fields = vec![field("a", IdlType::U8), field("sides", IdlType::Array(Box::new(defined("Side")), 4))];
    assert!(!get_field_list_properties(&schema(), &fields).unwrap().can_derive_default);
}

#[test]
fn empty_array_and_option_of_enum_do_not_block() {
    let fields = vec![
        field("none", IdlType::Array(Box::new(defined("Side")), 0)),
        field("side", IdlType::Optional(Box::new(defined("Side")))),
        field("many", IdlType::Vector(Box::new(defined("Side")))),
    ];
    assert!(get_field_list_properties(&schema(), &fields).unwrap().can_derive_default);
}

#[test]
fn defined_structs_and_aliases_are_followed() {
    let fields = vec![field("fees", defined("Fees")), field("amount", defined("Amount"))];
    assert!(get_field_list_properties(&schema(), &fields).unwrap().can_derive_default);
    let with_enum = vec![field("side", defined("Side"))];
    assert!(!get_field_list_properties(&schema(), &with_enum).unwrap().can_derive_default);
}

#[test]
fn cycle_is_not_default_able() {
    let fields = vec![field("node", defined("Node"))];
    assert!(!get_field_list_properties(&schema(), &fields).unwrap().can_derive_default);
}

#[test]
fn dangling_reference_is_reported() {
    let fields = vec![field("x", IdlType::U8), field("y", defined("Missing"))];
    assert_eq!(
        get_field_list_properties(&schema(), &fields),
        Err(DanglingReference { name: "Missing".to_string() })
    );
}

#[test]
fn ix_names_are_pascal_cased() {
    let ix = Instruction { name: "swap_exact_out".to_string(), args: vec![] };
    let (name, with_suffix) = format_ix_name(&ix);
    assert_eq!(name, "SwapExactOut");
    assert_eq!(with_suffix, "SwapExactOutIx");
}

#[test]
fn account_plan_follows_options() {
    let fields = vec![field("amount", IdlType::U64)];
    let zc = StructOpts { representation: None, zero_copy: Some(ZeroCopy::Safe), can_borsh: true };
    let p = generate_account(&schema(), "token_ledger", &fields, zc).unwrap();
    assert_eq!(p.struct_name, "TokenLedger");
    assert!(p.derive_default);
    assert!(!p.derive_account_encoding);
    assert!(p.derive_compact_encoding);
    assert!(!p.derive_compact_clone);
    let plain = generate_account(&schema(), "Pool", &fields, StructOpts::default()).unwrap();
    assert!(plain.derive_account_encoding);
    assert!(!plain.derive_compact_encoding);
    let borsh = StructOpts { representation: Some(Representation::C), zero_copy: None, can_borsh: true };
    let b = generate_account(&schema(), "Pool", &fields, borsh).unwrap();
    assert!(!b.derive_account_encoding);
    assert!(b.derive_compact_clone);
}

#[test]
fn enum_account_is_unsupported() {
    let accounts = vec![
        TypeDef { name: "Pool".to_string(), ty: TypeDefTy::Struct { fields: vec![] } },
        TypeDef { name: "Kind".to_string(), ty: TypeDefTy::Alias { target: IdlType::U8 } },
    ];
    assert_eq!(
        generate_accounts(&schema(), &accounts, &vec![]).err().unwrap(),
        AccountError::UnsupportedShape { index: 1, name: "Kind".to_string() }
    );
}

fn idl() -> Idl {
    Idl {
        name: "jupiter".to_string(),
        version: "0.1.0".to_string(),
        types: schema(),
        accounts: vec![TypeDef {
            name: "TokenLedger".to_string(),
            ty: TypeDefTy::Struct { fields: vec![field("amount", IdlType::U64), field("side", defined("Side"))] },
        }],
        instructions: vec![Instruction { name: "swap".to_string(), args: vec![field("amount", IdlType::U64)] }],
        events: Some(vec![Event { name: "SwapEvent".to_string(), fields: vec![field("amm", IdlType::PublicKey)] }]),
    }
}

#[test]
fn generator_resolves_options_and_tables() {
    let options = GeneratorOptions {
        idl_path: "idl.json".to_string(),
        zero_copy: names(&["TokenLedger"]),
        c_representation: names(&["TokenLedger"]),
        ..Default::default()
    };
    let generator = options.to_generator(idl()).unwrap();
    let out = generator.generate_cpi_interface().unwrap();
    assert_eq!(out.accounts.len(), 1);
    assert_eq!(out.accounts[0].opts.representation, Some(Representation::C));
    assert!(!out.accounts[0].derive_default);
    assert_eq!(out.instructions.len(), 1);
    assert_eq!(out.instructions[0].payload_type, "SwapIx");
    assert_eq!(out.events.unwrap()[0].variant, "SwapEvent");
}

#[test]
fn generator_rejects_conflicting_options() {
    let options = GeneratorOptions {
        packed_representation: names(&["TokenLedger"]),
        u64_representation: names(&["TokenLedger"]),
        ..Default::default()
    };
    let err = options.to_generator(idl()).err().unwrap();
    assert_eq!(err.conflicts.len(), 1);
    assert_eq!(err.conflicts[0].name, "TokenLedger");
}

#[test]
fn generator_reports_dangling_account_field() {
    let mut schema_idl = idl();
    schema_idl.accounts = vec![TypeDef {
        name: "Bad".to_string(),
        ty: TypeDefTy::Struct { fields: vec![field("x", defined("Nowhere"))] },
    }];
    let generator = GeneratorOptions::default().to_generator(schema_idl).unwrap();
    assert_eq!(
        generator.generate_cpi_interface().err().unwrap(),
        GenerateError::Account(AccountError::Dangling(DanglingReference { name: "Nowhere".to_string() }))
    );
}

#[test]
fn handler_signature_names() {
    let ix = Instruction {
        name: "sharedAccountsRoute".to_string(),
        args: vec![field("inAmount", IdlType::U64), field("platform_fee_bps", IdlType::U8)],
    };
    let plan = generate_ix_handler(&ix);
    assert_eq!(plan.fn_name, "shared_accounts_route");
    assert_eq!(plan.accounts_type, "SharedAccountsRoute");
    assert_eq!(
        plan.args,
        vec![
            HandlerArg { name: "_in_amount".to_string(), ty: IdlType::U64 },
            HandlerArg { name: "_platform_fee_bps".to_string(), ty: IdlType::U8 },
        ]
    );
    let all = generate_ix_handlers(&vec![ix.clone(), Instruction { name: "route".to_string(), args: vec![] }]);
    assert_eq!(all.len(), 2);
    assert_eq!(all[1].fn_name, "route");
}

#[test]
fn dangling_name_under_option_is_reported() {
    for ty in [
        IdlType::Optional(Box::new(defined("Ghost"))),
        IdlType::Vector(Box::new(defined("Ghost"))),
        IdlType::Array(Box::new(defined("Ghost")), 0),
    ] {
        let fields = vec![field("x", ty)];
        assert_eq!(
            get_field_list_properties(&schema(), &fields),
            Err(DanglingReference { name: "Ghost".to_string() })
        );
    }
}

#[test]
fn dangling_name_in_enum_variant_is_reported() {
    let mut defs = schema();
    defs.push(TypeDef {
        name: "Choice".to_string(),
        ty: TypeDefTy::Enum {
            variants: vec![EnumVariant { name: "One".to_string(), fields: vec![field("g", defined("Ghost"))] }],
        },
    });
    let fields = vec![field("c", defined("Choice"))];
    assert_eq!(get_field_list_properties(&defs, &fields), Err(DanglingReference { name: "Ghost".to_string() }));
}

#[test]
fn generator_reports_dangling_instruction_argument() {
    let mut schema_idl = idl();
    schema_idl.instructions = vec![Instruction { name: "swap".to_string(), args: vec![field("plan", defined("RoutePlan"))] }];
    let generator = GeneratorOptions::default().to_generator(schema_idl).unwrap();
    assert_eq!(
        generator.generate_cpi_interface().err().unwrap(),
        GenerateError::Dangling(DanglingReference { name: "RoutePlan".to_string() })
    );
}

#[test]
fn generator_reports_dangling_type_definition_and_event_field() {
    let mut with_type = idl();
    with_type.types.push(TypeDef { name: "Wrap".to_string(), ty: TypeDefTy::Alias { target: defined("Lost") } });
    let generator = GeneratorOptions::default().to_generator(with_type).unwrap();
    assert_eq!(
        generator.generate_cpi_interface().err().unwrap(),
        GenerateError::Dangling(DanglingReference { name: "Lost".to_string() })
    );
    let mut with_event = idl();
    with_event.events = Some(vec![Event { name: "E".to_string(), fields: vec![field("f", defined("Gone"))] }]);
    let generator = GeneratorOptions::default().to_generator(with_event).unwrap();
    assert_eq!(
        generator.generate_cpi_interface().err().unwrap(),
        GenerateError::Dangling(DanglingReference { name: "Gone".to_string() })
    );
}
