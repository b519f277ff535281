use anchor_idl::codec::{DecodeFault, Scalar};
use anchor_idl::layout::{decode_fields, Value, MAX_DEPTH};
use anchor_idl::discriminant::discriminant;
use anchor_idl::dispatch::{
    decode_event, decode_instruction, generate_events, generate_ix_deser_structs, DecodeError,
    Namespace,
};
use anchor_idl::schema::{EnumVariant, Event, Field, IdlType, Instruction, TypeDef, TypeDefTy};

fn field(name: &str, ty: IdlType) -> Field {
    Field { name: name.to_string(), ty }
}

fn swap() -> Instruction {
    Instruction {
        name: "swap".to_string(),
        args: vec![field("amount_in", IdlType::U64), field("minimum_amount_out", IdlType::U64)],
    }
}

fn expected_discriminant(preimage: &str) -> u64 {
    let digest = sha256::digest(preimage);
    let bytes = hex::decode(digest).unwrap();
    u64::from_le_bytes(bytes[..8].try_into().unwrap())
}

#[test]
fn swap_discriminant_is_sha256_prefix() {
    let d = discriminant("global", "swap");
    assert_eq!(d, expected_discriminant("global:swap"));
    assert_eq!(d.to_le_bytes(), [248, 198, 158, 145, 225, 117, 135, 200]);
}

#[test]
fn swap_args_encode_in_field_order_and_decode_back() {
    let amount_in: u64 = 1_000_000;
    let minimum_amount_out: u64 = 990_000;
    let mut body = amount_in.to_le_bytes().to_vec();
    body.extend_from_slice(&minimum_amount_out.to_le_bytes());
    assert_eq!(body.len(), 16);
    let values = decode_fields(&vec![], &swap().args, &body).unwrap();
    assert_eq!(
        values,
        vec![
            Value::Scalar(Scalar::Unsigned(amount_in as u128)),
            Value::Scalar(Scalar::Unsigned(minimum_amount_out as u128)),
        ]
    );
}

#[test]
fn swap_instruction_decodes_through_the_table() {
    let ixs = vec![
        Instruction { name: "route".to_string(), args: vec![field("in_amount", IdlType::U64)] },
        swap(),
    ];
    let table = generate_ix_deser_structs(&ixs).unwrap();
    let mut data = table[1].discriminant.to_le_bytes().to_vec();
    data.extend_from_slice(&7u64.to_le_bytes());
    data.extend_from_slice(&9u64.to_le_bytes());
    let decoded = decode_instruction(&table, &vec![], &ixs, &data).unwrap();
    assert_eq!(decoded.variant, 1);
    assert_eq!(
        decoded.values,
        vec![Value::Scalar(Scalar::Unsigned(7)), Value::Scalar(Scalar::Unsigned(9))]
    );
}

#[test]
fn instruction_with_trailing_byte_is_malformed() {
    let ixs = vec![swap()];
    let table = generate_ix_deser_structs(&ixs).unwrap();
    let mut data = table[0].discriminant.to_le_bytes().to_vec();
    data.extend_from_slice(&[0u8; 17]);
    assert_eq!(
        decode_instruction(&table, &vec![], &ixs, &data),
        Err(DecodeError::TruncatedOrMalformedPayload)
    );
}

fn fee_event() -> Event {
    Event { name: "feeevent".to_string(), fields: vec![field("amount", IdlType::U64)] }
}

#[test]
fn truncated_event_payload_is_reported() {
    let events = vec![fee_event()];
    let table = generate_events(&Some(events.clone())).unwrap().unwrap();
    assert_eq!(table[0].discriminant, expected_discriminant("event:feeevent"));
    let mut data = table[0].discriminant.to_le_bytes().to_vec();
    data.extend_from_slice(&[1, 2, 3, 4]);
    assert_eq!(decode_event(&table, &vec![], &events, &data), Err(DecodeError::TruncatedOrMalformedPayload));
}

#[test]
fn event_round_trip() {
    let events = vec![fee_event()];
    let table = generate_events(&Some(events.clone())).unwrap().unwrap();
    let mut data = table[0].discriminant.to_le_bytes().to_vec();
    data.extend_from_slice(&5000u64.to_le_bytes());
    let decoded = decode_event(&table, &vec![], &events, &data).unwrap();
    assert_eq!(decoded.variant, 0);
    assert_eq!(decoded.values, vec![Value::Scalar(Scalar::Unsigned(5000))]);
}

#[test]
fn unknown_discriminant_is_reported() {
    let events = vec![fee_event()];
    let table = generate_events(&Some(events.clone())).unwrap().unwrap();
    let other = table[0].discriminant.wrapping_add(1);
    let mut data = other.to_le_bytes().to_vec();
    data.extend_from_slice(&5000u64.to_le_bytes());
    assert_eq!(
        decode_event(&table, &vec![], &events, &data),
        Err(DecodeError::UnknownVariant { namespace: Namespace::Event, discriminant: other })
    );
}

#[test]
fn short_buffer_is_truncated() {
    let events = vec![fee_event()];
    let table = generate_events(&Some(events.clone())).unwrap().unwrap();
    assert_eq!(decode_event(&table, &vec![], &events, &[1, 2, 3]), Err(DecodeError::TruncatedOrMalformedPayload));
}

#[test]
fn no_events_give_no_table() {
    assert!(generate_events(&None).unwrap().is_none());
}

#[test]
fn signed_values_read_as_twos_complement() {
    let fields = vec![
        field("a", IdlType::I8),
        field("b", IdlType::I16),
        field("c", IdlType::I128),
        field("d", IdlType::I32),
    ];
    let mut data = vec![0xff];
    data.extend_from_slice(&(-300i16).to_le_bytes());
    data.extend_from_slice(&i128::MIN.to_le_bytes());
    data.extend_from_slice(&123456i32.to_le_bytes());
    let values = decode_fields(&vec![], &fields, &data).unwrap();
    assert_eq!(
        values,
        vec![
            Value::Scalar(Scalar::Signed(-1)),
            Value::Scalar(Scalar::Signed(-300)),
            Value::Scalar(Scalar::Signed(i128::MIN)),
            Value::Scalar(Scalar::Signed(123456)),
        ]
    );
}

#[test]
fn composite_fields_decode() {
    let fields = vec![
        field("name", IdlType::Text),
        field("maybe", IdlType::Optional(Box::new(IdlType::U16))),
        field("none", IdlType::Optional(Box::new(IdlType::Bool))),
        field("list", IdlType::Vector(Box::new(IdlType::U8))),
        field("pair", IdlType::Array(Box::new(IdlType::Bool), 2)),
        field("key", IdlType::PublicKey),
    ];
    let mut data = vec![2, 0, 0, 0, b'h', b'i'];
    data.extend_from_slice(&[1, 0x34, 0x12]);
    data.push(0);
    data.extend_from_slice(&[3, 0, 0, 0, 7, 8, 9]);
    data.extend_from_slice(&[1, 0]);
    data.extend_from_slice(&[5u8; 32]);
    let values = decode_fields(&vec![], &fields, &data).unwrap();
    assert_eq!(
        values,
        vec![
            Value::Bytes(b"hi".to_vec()),
            Value::Optional(Some(Box::new(Value::Scalar(Scalar::Unsigned(0x1234))))),
            Value::Optional(None),
            Value::Sequence(vec![
                Value::Scalar(Scalar::Unsigned(7)),
                Value::Scalar(Scalar::Unsigned(8)),
                Value::Scalar(Scalar::Unsigned(9)),
            ]),
            Value::Sequence(vec![Value::Scalar(Scalar::Bool(true)), Value::Scalar(Scalar::Bool(false))]),
            Value::Scalar(Scalar::PublicKey(vec![5u8; 32])),
        ]
    );
}

#[test]
fn bad_bool_and_bad_flag_are_malformed() {
    let bools = vec![field("b", IdlType::Bool)];
    assert_eq!(decode_fields(&vec![], &bools, &[2]), Err(DecodeFault::TruncatedOrMalformedPayload));
    let opt = vec![field("o", IdlType::Optional(Box::new(IdlType::U8)))];
    assert_eq!(decode_fields(&vec![], &opt, &[2, 1]), Err(DecodeFault::TruncatedOrMalformedPayload));
}

#[test]
fn vector_longer_than_buffer_is_truncated() {
    let fields = vec![field("v", IdlType::Vector(Box::new(IdlType::U64)))];
    assert_eq!(
        decode_fields(&vec![], &fields, &[255, 255, 255, 255, 0]),
        Err(DecodeFault::TruncatedOrMalformedPayload)
    );
}

fn pool_defs() -> Vec<TypeDef> {
    vec![
        TypeDef {
            name: "Fees".to_string(),
            ty: TypeDefTy::Struct { fields: vec![field("rate", IdlType::U16), field("label", IdlType::Text)] },
        },
        TypeDef {
            name: "Side".to_string(),
            ty: TypeDefTy::Enum {
                variants: vec![
                    EnumVariant { name: "Bid".to_string(), fields: vec![] },
                    EnumVariant { name: "Ask".to_string(), fields: vec![field("limit", IdlType::U8)] },
                ],
            },
        },
        TypeDef { name: "Amount".to_string(), ty: TypeDefTy::Alias { target: IdlType::U32 } },
        TypeDef {
            name: "Node".to_string(),
            ty: TypeDefTy::Struct {
                fields: vec![field("next", IdlType::Optional(Box::new(IdlType::Defined("Node".to_string()))))],
            },
        },
        TypeDef {
            name: "Loop".to_string(),
            ty: TypeDefTy::Struct { fields: vec![field("again", IdlType::Defined("Loop".to_string()))] },
        },
    ]
}

fn defined(name: &str) -> IdlType {
    IdlType::Defined(name.to_string())
}

#[test]
fn defined_fields_decode_by_their_definitions() {
    let fields = vec![
        field("fees", defined("Fees")),
        field("side", defined("Side")),
        field("sides", IdlType::Vector(Box::new(defined("Side")))),
        field("amount", defined("Amount")),
        field("names", IdlType::Vector(Box::new(IdlType::Text))),
    ];
    let mut data = vec![0x10, 0x00, 1, 0, 0, 0, b'x'];
    data.extend_from_slice(&[1, 9]);
    data.extend_from_slice(&[2, 0, 0, 0, 0, 1, 4]);
    data.extend_from_slice(&77u32.to_le_bytes());
    data.extend_from_slice(&[1, 0, 0, 0, 2, 0, 0, 0, b'o', b'k']);
    let values = decode_fields(&pool_defs(), &fields, &data).unwrap();
    assert_eq!(
        values,
        vec![
            Value::Struct(vec![Value::Scalar(Scalar::Unsigned(16)), Value::Bytes(b"x".to_vec())]),
            Value::Variant(1, vec![Value::Scalar(Scalar::Unsigned(9))]),
            Value::Sequence(vec![
                Value::Variant(0, vec![]),
                Value::Variant(1, vec![Value::Scalar(Scalar::Unsigned(4))]),
            ]),
            Value::Scalar(Scalar::Unsigned(77)),
            Value::Sequence(vec![Value::Bytes(b"ok".to_vec())]),
        ]
    );
}

#[test]
fn truncated_defined_field_is_malformed() {
    let fields = vec![field("fees", defined("Fees"))];
    assert_eq!(
        decode_fields(&pool_defs(), &fields, &[0x10, 0x00, 3, 0, 0, 0, b'a']),
        Err(DecodeFault::TruncatedOrMalformedPayload)
    );
    let side = vec![field("side", defined("Side"))];
    assert_eq!(decode_fields(&pool_defs(), &side, &[2]), Err(DecodeFault::TruncatedOrMalformedPayload));
}

#[test]
fn recursive_type_decodes_to_its_depth() {
    let fields = vec![field("head", defined("Node"))];
    let values = decode_fields(&pool_defs(), &fields, &[1, 1, 0]).unwrap();
    assert_eq!(
        values,
        vec![Value::Struct(vec![Value::Optional(Some(Box::new(Value::Struct(vec![Value::Optional(Some(
            Box::new(Value::Struct(vec![Value::Optional(None)]))
        ))]))))])]
    );
}

#[test]
fn missing_or_endless_type_is_unresolvable() {
    let missing = vec![field("d", defined("Pool"))];
    assert_eq!(decode_fields(&pool_defs(), &missing, &[0; 8]), Err(DecodeFault::UnresolvableLayout));
    let endless = vec![field("l", defined("Loop"))];
    assert_eq!(decode_fields(&pool_defs(), &endless, &[]), Err(DecodeFault::UnresolvableLayout));
    assert!(MAX_DEPTH > 0);
}

#[test]
fn event_with_defined_field_round_trips() {
    let events = vec![Event { name: "SwapEvent".to_string(), fields: vec![field("fees", defined("Fees")), field("amm", IdlType::U8)] }];
    let table = generate_events(&Some(events.clone())).unwrap().unwrap();
    let mut data = table[0].discriminant.to_le_bytes().to_vec();
    data.extend_from_slice(&[5, 0, 0, 0, 0, 0, 3]);
    let decoded = decode_event(&table, &pool_defs(), &events, &data).unwrap();
    assert_eq!(
        decoded.values,
        vec![
            Value::Struct(vec![Value::Scalar(Scalar::Unsigned(5)), Value::Bytes(vec![])]),
            Value::Scalar(Scalar::Unsigned(3)),
        ]
    );
    data.pop();
    assert_eq!(
        decode_event(&table, &pool_defs(), &events, &data),
        Err(DecodeError::TruncatedOrMalformedPayload)
    );
}

#[test]
fn same_name_gives_same_discriminant_whatever_else_is_there() {
    let a = vec![swap(), Instruction { name: "route".to_string(), args: vec![] }];
    let b = vec![Instruction { name: "exact_out_route".to_string(), args: vec![] }, swap()];
    let ta = generate_ix_deser_structs(&a).unwrap();
    let tb = generate_ix_deser_structs(&b).unwrap();
    assert_eq!(ta[0].discriminant, tb[1].discriminant);
}

#[test]
fn generating_twice_gives_the_same_tables() {
    let ixs = vec![swap(), Instruction { name: "route".to_string(), args: vec![] }];
    let t1 = generate_ix_deser_structs(&ixs).unwrap();
    let t2 = generate_ix_deser_structs(&ixs).unwrap();
    assert_eq!(t1.len(), t2.len());
    for (x, y) in t1.iter().zip(t2.iter()) {
        assert_eq!(x.discriminant, y.discriminant);
        assert_eq!(x.variant, y.variant);
        assert_eq!(x.payload_type, y.payload_type);
        assert_eq!(x.item, y.item);
    }
}

#[test]
fn instruction_names_are_snake_cased_for_the_discriminant() {
    let ixs = vec![Instruction { name: "sharedAccountsRoute".to_string(), args: vec![] }];
    let table = generate_ix_deser_structs(&ixs).unwrap();
    assert_eq!(table[0].discriminant, expected_discriminant("global:shared_accounts_route"));
    assert_eq!(table[0].variant, "SharedAccountsRoute");
    assert_eq!(table[0].payload_type, "SharedAccountsRouteIx");
}

#[test]
fn duplicate_instruction_names_collide() {
    let ixs = vec![swap(), Instruction { name: "route".to_string(), args: vec![] }, swap()];
    let err = generate_ix_deser_structs(&ixs).unwrap_err();
    assert_eq!(err.first, 0);
    assert_eq!(err.second, 2);
    assert_eq!(err.discriminant, expected_discriminant("global:swap"));
}
