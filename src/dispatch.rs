use vstd::prelude::*;
use vstd::string::StringExecFns;
use crate::discriminant::{
    discriminant, discriminant_of, pascal_case, pascal_case_of, preimage, snake_case,
    snake_case_of,
};
use crate::codec::DecodeFault;
use crate::layout::{decode_fields_from, payload_from, values_are, Value};
use crate::discriminant::{le_u64, u64_from_le};
use crate::schema::{Event, Field, IdlType, Instruction, TypeDef};

verus! {

/// The namespace of instruction discriminants.
pub open spec fn global_ns() -> Seq<char> {
    seq!['g', 'l', 'o', 'b', 'a', 'l']
}

/// The namespace of event discriminants.
pub open spec fn event_ns() -> Seq<char> {
    seq!['e', 'v', 'e', 'n', 't']
}

/// The suffix of an instruction's payload type name.
pub open spec fn ix_suffix() -> Seq<char> {
    seq!['I', 'x']
}

/// An instruction's discriminant: its name is taken in snake case.
pub open spec fn ix_discriminant(name: Seq<char>) -> u64 {
    discriminant_of(preimage(global_ns(), snake_case_of(name)))
}

/// An event's discriminant: its name is taken as it stands.
pub open spec fn event_discriminant(name: Seq<char>) -> u64 {
    discriminant_of(preimage(event_ns(), name))
}

/// One arm of a dispatch table: the union variant, the payload type it
/// carries, and the discriminant that selects it. `item` is the index of the
/// instruction or event whose fields lay the payload out.
#[derive(Clone, Debug)]
pub struct DispatchEntry {
    pub variant: String,
    pub payload_type: String,
    pub discriminant: u64,
    pub item: usize,
}

/// Two items of one namespace whose discriminants coincide.
#[derive(Clone, Debug, PartialEq, Eq)]
pub struct DiscriminantCollision {
    pub first: usize,
    pub second: usize,
    pub discriminant: u64,
}

/// The names under which an instruction is generated: its union variant and
/// its payload type.
pub fn format_ix_name(ix: &Instruction) -> (r: (String, String))
    ensures
        r.0@ == pascal_case_of(ix.name@),
        r.1@ == pascal_case_of(ix.name@) + ix_suffix(),
{
    let name = pascal_case(ix.name.as_str());
    let mut with_suffix = name.clone();
    with_suffix.append("Ix");
    proof {
        reveal_strlit("Ix");
    }
    (name, with_suffix)
}

/// Instruction `i` and its dispatch arm agree.
pub open spec fn ix_entry_ok(ixs: Seq<Instruction>, e: DispatchEntry, i: int) -> bool {
    e.item == i && e.variant@ == pascal_case_of(ixs[i].name@) && e.payload_type@
        == pascal_case_of(ixs[i].name@) + ix_suffix() && e.discriminant == ix_discriminant(
        ixs[i].name@,
    )
}

/// Event `i` and its dispatch arm agree.
pub open spec fn event_entry_ok(evs: Seq<Event>, e: DispatchEntry, i: int) -> bool {
    e.item == i && e.variant@ == pascal_case_of(evs[i].name@) && e.payload_type@
        == pascal_case_of(evs[i].name@) && e.discriminant == event_discriminant(evs[i].name@)
}

/// The discriminants of a table, in order.
pub open spec fn discriminants(t: Seq<DispatchEntry>) -> Seq<u64> {
    t.map_values(|e: DispatchEntry| e.discriminant)
}

/// The discriminants are pairwise distinct.
pub open spec fn distinct(d: Seq<u64>) -> bool {
    forall|i: int, j: int| 0 <= i < j < d.len() ==> d[i] != d[j]
}

/// `c` is the first collision: the least `second` that repeats an earlier
/// discriminant, with the least such `first`.
pub open spec fn first_collision(d: Seq<u64>, c: DiscriminantCollision) -> bool {
    &&& c.first < c.second < d.len()
    &&& d[c.first as int] == d[c.second as int] && c.discriminant == d[c.second as int]
    &&& distinct(d.take(c.second as int))
    &&& forall|i: int| 0 <= i < c.first ==> #[trigger] d[i] != d[c.second as int]
}

/// Checks that no two arms share a discriminant.
pub fn check_collisions(t: &Vec<DispatchEntry>) -> (r: Result<(), DiscriminantCollision>)
    ensures
        match r {
            Ok(()) => distinct(discriminants(t@)),
            Err(c) => first_collision(discriminants(t@), c),
        },
{
    let ghost d = discriminants(t@);
    let mut j: usize = 0;
    while j < t.len()
        invariant
            0 <= j <= t@.len(),
            d == discriminants(t@),
            distinct(d.take(j as int)),
        decreases t@.len() - j,
    {
        let mut i: usize = 0;
        while i < j
            invariant
                0 <= i <= j < t@.len(),
                d == discriminants(t@),
                distinct(d.take(j as int)),
                forall|k: int| 0 <= k < i ==> d[k] != d[j as int],
            decreases j - i,
        {
            if t[i].discriminant == t[j].discriminant {
                let c = DiscriminantCollision { first: i, second: j, discriminant: t[j].discriminant };
                proof {
                    assert(d[i as int] == d[j as int]);
                    assert(c.discriminant == d[j as int]);
                    assert(distinct(d.take(c.second as int)));
                    assert(forall|k: int| 0 <= k < c.first ==> #[trigger] d[k] != d[c.second as int]);
                }
                return Err(c);
            }
            i = i + 1;
        }
        proof {
            let dj = d.take(j + 1);
            assert forall|a: int, b: int| 0 <= a < b < j + 1 implies #[trigger] dj[a] != #[trigger] dj[b] by {
                if b < j {
                    assert(d.take(j as int)[a] != d.take(j as int)[b]);
                }
            }
        }
        j = j + 1;
    }
    proof {
        assert(d.take(j as int) == d);
    }
    Ok(())
}

/// The instructions' discriminants, in order.
pub open spec fn ix_discriminants(ixs: Seq<Instruction>) -> Seq<u64> {
    Seq::new(ixs.len(), |i: int| ix_discriminant(ixs[i].name@))
}

/// The events' discriminants, in order.
pub open spec fn event_discriminants(evs: Seq<Event>) -> Seq<u64> {
    Seq::new(evs.len(), |i: int| event_discriminant(evs[i].name@))
}

/// `t` is the dispatch table of the instructions.
pub open spec fn ix_table_ok(ixs: Seq<Instruction>, t: Seq<DispatchEntry>) -> bool {
    t.len() == ixs.len() && forall|i: int| 0 <= i < ixs.len() ==> ix_entry_ok(ixs, #[trigger] t[i], i)
}

/// `t` is the dispatch table of the events.
pub open spec fn event_table_ok(evs: Seq<Event>, t: Seq<DispatchEntry>) -> bool {
    t.len() == evs.len() && forall|i: int| 0 <= i < evs.len() ==> event_entry_ok(evs, #[trigger] t[i], i)
}

/// What building the instruction table gives: the table where the
/// discriminants are distinct, else their first collision.
pub open spec fn ix_table_result(
    ixs: Seq<Instruction>,
    r: Result<Vec<DispatchEntry>, DiscriminantCollision>,
) -> bool {
    match r {
        Ok(t) => ix_table_ok(ixs, t@) && distinct(ix_discriminants(ixs)),
        Err(c) => first_collision(ix_discriminants(ixs), c),
    }
}

/// What building the event table gives: none without events, the table where
/// the discriminants are distinct, else their first collision.
pub open spec fn events_result(
    events: Option<Vec<Event>>,
    r: Result<Option<Vec<DispatchEntry>>, DiscriminantCollision>,
) -> bool {
    match events {
        None => r == Ok::<Option<Vec<DispatchEntry>>, DiscriminantCollision>(None),
        Some(evs) => match r {
            Ok(Some(t)) => event_table_ok(evs@, t@) && distinct(event_discriminants(evs@)),
            Ok(None) => false,
            Err(c) => first_collision(event_discriminants(evs@), c),
        },
    }
}

/// The dispatch table of the instructions: one arm per instruction, in order,
/// unless two instructions share a discriminant.
pub fn generate_ix_deser_structs(ixs: &Vec<Instruction>) -> (r: Result<
    Vec<DispatchEntry>,
    DiscriminantCollision,
>)
    ensures
        ix_table_result(ixs@, r),
{
    let mut t: Vec<DispatchEntry> = Vec::new();
    let mut i: usize = 0;
    while i < ixs.len()
        invariant
            0 <= i <= ixs@.len(),
            t@.len() == i,
            forall|k: int| 0 <= k < i ==> ix_entry_ok(ixs@, #[trigger] t@[k], k),
        decreases ixs@.len() - i,
    {
        let ix = &ixs[i];
        let (variant, payload_type) = format_ix_name(ix);
        let snake = snake_case(ix.name.as_str());
        let d = discriminant("global", snake.as_str());
        proof {
            reveal_strlit("global");
            assert("global"@ == global_ns());
        }
        let ghost prev = t@;
        t.push(DispatchEntry { variant, payload_type, discriminant: d, item: i });
        proof {
            assert forall|k: int| 0 <= k < i + 1 implies ix_entry_ok(ixs@, #[trigger] t@[k], k) by {
                if k < i {
                    assert(t@[k] == prev[k]);
                }
            }
        }
        i = i + 1;
    }
    let r = check_collisions(&t);
    proof {
        assert(discriminants(t@) =~= ix_discriminants(ixs@));
    }
    match r {
        Ok(()) => Ok(t),
        Err(c) => Err(c),
    }
}

/// The dispatch table of the events, if the schema has any: one arm per
/// event, in order, unless two events share a discriminant.
pub fn generate_events(events: &Option<Vec<Event>>) -> (r: Result<
    Option<Vec<DispatchEntry>>,
    DiscriminantCollision,
>)
    ensures
        events_result(*events, r),
{
    match events {
        None => Ok(None),
        Some(evs) => {
            let mut t: Vec<DispatchEntry> = Vec::new();
            let mut i: usize = 0;
            while i < evs.len()
                invariant
                    0 <= i <= evs@.len(),
                    t@.len() == i,
                    forall|k: int| 0 <= k < i ==> event_entry_ok(evs@, #[trigger] t@[k], k),
                decreases evs@.len() - i,
            {
                let ev = &evs[i];
                let variant = pascal_case(ev.name.as_str());
                let payload_type = variant.clone();
                let d = discriminant("event", ev.name.as_str());
                proof {
                    reveal_strlit("event");
                    assert("event"@ == event_ns());
                }
                let ghost prev = t@;
                t.push(DispatchEntry { variant, payload_type, discriminant: d, item: i });
                proof {
                    assert forall|k: int| 0 <= k < i + 1 implies event_entry_ok(evs@, #[trigger] t@[k], k) by {
                        if k < i {
                            assert(t@[k] == prev[k]);
                        }
                    }
                }
                i = i + 1;
            }
            let r = check_collisions(&t);
            proof {
                assert(discriminants(t@) =~= event_discriminants(evs@));
            }
            match r {
                Ok(()) => Ok(Some(t)),
                Err(c) => Err(c),
            }
        },
    }
}


/// The namespace a discriminant belongs to.
#[derive(Clone, Copy, Debug, PartialEq, Eq, Structural)]
pub enum Namespace {
    Global,
    Event,
}

/// Why a buffer does not decode into a variant of the tagged union.
#[derive(Clone, Copy, Debug, PartialEq, Eq, Structural)]
pub enum DecodeError {
    /// No arm of the table has the buffer's discriminant.
    UnknownVariant { namespace: Namespace, discriminant: u64 },
    /// The buffer is too short, holds a bad tag, or has bytes left over.
    TruncatedOrMalformedPayload,
    /// The item's layout names a type the schema lacks, or nests deeper
    /// than `MAX_DEPTH` levels.
    UnresolvableLayout,
}

/// A decoded buffer: the arm of the table that matched, and its fields.
#[derive(Debug, PartialEq, Eq)]
pub struct Decoded {
    pub variant: usize,
    pub values: Vec<Value>,
}

pub open spec fn fault_error(f: DecodeFault) -> DecodeError {
    match f {
        DecodeFault::TruncatedOrMalformedPayload => DecodeError::TruncatedOrMalformedPayload,
        DecodeFault::UnresolvableLayout => DecodeError::UnresolvableLayout,
    }
}

/// `i` is the first arm with discriminant `d`.
pub open spec fn first_entry(t: Seq<DispatchEntry>, d: u64, i: int) -> bool {
    0 <= i < t.len() && t[i].discriminant == d && forall|j: int|
        0 <= j < i ==> #[trigger] t[j].discriminant != d
}

/// What decoding `b` against the table `t` gives, where `layouts[k]` lays out
/// the payload of item `k` over the type definitions `defs`: the buffer's first eight bytes, read
/// little-endian, select an arm, and the rest of the buffer is its payload.
pub open spec fn tagged_result(
    ns: Namespace,
    t: Seq<DispatchEntry>,
    defs: Seq<TypeDef>,
    layouts: Seq<Seq<Field>>,
    b: Seq<u8>,
    r: Result<Decoded, DecodeError>,
) -> bool {
    if b.len() < 8 {
        r == Err::<Decoded, DecodeError>(DecodeError::TruncatedOrMalformedPayload)
    } else {
        let d = le_u64(b) as u64;
        if forall|i: int| 0 <= i < t.len() ==> #[trigger] t[i].discriminant != d {
            r == Err::<Decoded, DecodeError>(
                DecodeError::UnknownVariant { namespace: ns, discriminant: d },
            )
        } else {
            exists|i: int|
                first_entry(t, d, i) && match #[trigger] payload_from(defs, layouts[t[i].item as int], b, 8) {
                    Ok(vs) => r is Ok && r->Ok_0.variant == i && values_are(r->Ok_0.values@, vs),
                    Err(f) => r == Err::<Decoded, DecodeError>(fault_error(f)),
                }
        }
    }
}

/// Finds the first arm with discriminant `d`.
pub fn find_entry(t: &Vec<DispatchEntry>, d: u64) -> (r: Option<usize>)
    ensures
        match r {
            Some(i) => first_entry(t@, d, i as int),
            None => forall|i: int| 0 <= i < t@.len() ==> #[trigger] t@[i].discriminant != d,
        },
{
    let mut i: usize = 0;
    while i < t.len()
        invariant
            0 <= i <= t@.len(),
            forall|j: int| 0 <= j < i ==> #[trigger] t@[j].discriminant != d,
        decreases t@.len() - i,
    {
        if t[i].discriminant == d {
            return Some(i);
        }
        i = i + 1;
    }
    None
}

fn fault_to_error(f: DecodeFault) -> (r: DecodeError)
    ensures
        r == fault_error(f),
{
    match f {
        DecodeFault::TruncatedOrMalformedPayload => DecodeError::TruncatedOrMalformedPayload,
        DecodeFault::UnresolvableLayout => DecodeError::UnresolvableLayout,
    }
}

/// The argument layouts of the instructions.
pub open spec fn ix_layouts(ixs: Seq<Instruction>) -> Seq<Seq<Field>> {
    ixs.map_values(|ix: Instruction| ix.args@)
}

/// The field layouts of the events.
pub open spec fn event_layouts(evs: Seq<Event>) -> Seq<Seq<Field>> {
    evs.map_values(|ev: Event| ev.fields@)
}

/// Reads a buffer's discriminant and finds the first arm that has it.
fn select_arm(ns: Namespace, table: &Vec<DispatchEntry>, data: &[u8]) -> (r: Result<usize, DecodeError>)
    ensures
        match r {
            Ok(i) => data@.len() >= 8 && first_entry(table@, le_u64(data@) as u64, i as int),
            Err(e) => if data@.len() < 8 {
                e == DecodeError::TruncatedOrMalformedPayload
            } else {
                (forall|k: int| 0 <= k < table@.len() ==> #[trigger] table@[k].discriminant != le_u64(data@) as u64)
                    && e == DecodeError::UnknownVariant { namespace: ns, discriminant: le_u64(data@) as u64 }
            },
        },
{
    if data.len() < 8 {
        return Err(DecodeError::TruncatedOrMalformedPayload);
    }
    let d = u64_from_le(data);
    match find_entry(table, d) {
        None => Err(DecodeError::UnknownVariant { namespace: ns, discriminant: d }),
        Some(i) => Ok(i),
    }
}

/// Decodes the payload of arm `i`, laid out by `fields`, after the
/// discriminant.
fn decode_arm(i: usize, defs: &Vec<TypeDef>, fields: &Vec<Field>, data: &[u8]) -> (r: Result<Decoded, DecodeError>)
    ensures
        match payload_from(defs@, fields@, data@, 8) {
            Ok(vs) => r is Ok && r->Ok_0.variant == i && values_are(r->Ok_0.values@, vs),
            Err(f) => r == Err::<Decoded, DecodeError>(fault_error(f)),
        },
{
    match decode_fields_from(defs, fields, data, 8) {
        Ok(values) => Ok(Decoded { variant: i, values }),
        Err(f) => Err(fault_to_error(f)),
    }
}

/// Decodes an event buffer: an eight-byte discriminant, then the event's
/// fields over the type definitions `defs`, with no byte left over.
pub fn decode_event(table: &Vec<DispatchEntry>, defs: &Vec<TypeDef>, events: &Vec<Event>, data: &[u8]) -> (r: Result<
    Decoded,
    DecodeError,
>)
    requires
        event_table_ok(events@, table@),
    ensures
        tagged_result(Namespace::Event, table@, defs@, event_layouts(events@), data@, r),
{
    let i = match select_arm(Namespace::Event, table, data) {
        Ok(i) => i,
        Err(e) => {
            return Err(e);
        },
    };
    let r = decode_arm(i, defs, &events[i].fields, data);
    proof {
        assert(table@[i as int].item == i);
        assert(event_layouts(events@)[i as int] == events@[i as int].fields@);
    }
    r
}

/// Decodes an instruction buffer: an eight-byte discriminant, then the
/// instruction's arguments over the type definitions `defs`, with no byte
/// left over.
pub fn decode_instruction(table: &Vec<DispatchEntry>, defs: &Vec<TypeDef>, ixs: &Vec<Instruction>, data: &[u8]) -> (r: Result<
    Decoded,
    DecodeError,
>)
    requires
        ix_table_ok(ixs@, table@),
    ensures
        tagged_result(Namespace::Global, table@, defs@, ix_layouts(ixs@), data@, r),
{
    let i = match select_arm(Namespace::Global, table, data) {
        Ok(i) => i,
        Err(e) => {
            return Err(e);
        },
    };
    let r = decode_arm(i, defs, &ixs[i].args, data);
    proof {
        assert(table@[i as int].item == i);
        assert(ix_layouts(ixs@)[i as int] == ixs@[i as int].args@);
    }
    r
}

/// One argument of an instruction handler.
#[derive(Clone, Debug, PartialEq, Eq)]
pub struct HandlerArg {
    pub name: String,
    pub ty: IdlType,
}

/// The signature of an instruction handler: its function name, the
/// accounts type of its context, and its arguments.
#[derive(Clone, Debug, PartialEq, Eq)]
pub struct HandlerPlan {
    pub fn_name: String,
    pub accounts_type: String,
    pub args: Vec<HandlerArg>,
}

/// `p` is the handler of `ix`: the function is named in snake case, the
/// accounts type in Pascal case, and each argument in snake case after an
/// underscore, with its declared type.
pub open spec fn handler_ok(ix: Instruction, p: HandlerPlan) -> bool {
    &&& p.fn_name@ == snake_case_of(ix.name@)
    &&& p.accounts_type@ == pascal_case_of(ix.name@)
    &&& p.args@.len() == ix.args@.len()
    &&& forall|i: int|
        0 <= i < ix.args@.len() ==> (#[trigger] p.args@[i]).name@ == seq!['_'] + snake_case_of(
            ix.args@[i].name@,
        ) && p.args@[i].ty == ix.args@[i].ty
}

/// The signature of the handler of one instruction.
pub fn generate_ix_handler(ix: &Instruction) -> (r: HandlerPlan)
    ensures
        handler_ok(*ix, r),
{
    let mut args: Vec<HandlerArg> = Vec::new();
    let mut i: usize = 0;
    while i < ix.args.len()
        invariant
            0 <= i <= ix.args@.len(),
            args@.len() == i,
            forall|k: int|
                0 <= k < i ==> (#[trigger] args@[k]).name@ == seq!['_'] + snake_case_of(
                    ix.args@[k].name@,
                ) && args@[k].ty == ix.args@[k].ty,
        decreases ix.args@.len() - i,
    {
        let arg = &ix.args[i];
        let mut name = "_".to_owned();
        name.append(snake_case(arg.name.as_str()).as_str());
        proof {
            reveal_strlit("_");
        }
        let ghost prev = args@;
        args.push(HandlerArg { name, ty: arg.ty.clone() });
        proof {
            assert forall|k: int| 0 <= k < i + 1 implies (#[trigger] args@[k]).name@ == seq!['_']
                + snake_case_of(ix.args@[k].name@) && args@[k].ty == ix.args@[k].ty by {
                if k < i {
                    assert(args@[k] == prev[k]);
                }
            }
        }
        i = i + 1;
    }
    HandlerPlan {
        fn_name: snake_case(ix.name.as_str()),
        accounts_type: pascal_case(ix.name.as_str()),
        args,
    }
}

/// The signatures of the handlers of all instructions, in order.
pub fn generate_ix_handlers(ixs: &Vec<Instruction>) -> (r: Vec<HandlerPlan>)
    ensures
        r@.len() == ixs@.len(),
        forall|i: int| 0 <= i < ixs@.len() ==> handler_ok(ixs@[i], #[trigger] r@[i]),
{
    let mut out: Vec<HandlerPlan> = Vec::new();
    let mut i: usize = 0;
    while i < ixs.len()
        invariant
            0 <= i <= ixs@.len(),
            out@.len() == i,
            forall|k: int| 0 <= k < i ==> handler_ok(ixs@[k], #[trigger] out@[k]),
        decreases ixs@.len() - i,
    {
        let ghost prev = out@;
        out.push(generate_ix_handler(&ixs[i]));
        proof {
            assert forall|k: int| 0 <= k < i + 1 implies handler_ok(ixs@[k], #[trigger] out@[k]) by {
                if k < i {
                    assert(out@[k] == prev[k]);
                }
            }
        }
        i = i + 1;
    }
    out
}

} // verus!
