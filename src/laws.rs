use vstd::prelude::*;
use crate::codec::{byte_range, le_bytes, le_nat, lemma_le_round_trip};
use crate::layout::{
    enc_payload, lemma_payload_round_trip, payload_fits, payload_from, values_are, ValueView,
};
use crate::discriminant::le_u64;
use crate::analysis::{fields_default, ty_default};
use crate::dispatch::{
    discriminants, distinct, event_discriminants, event_layouts, event_table_ok, events_result,
    fault_error, first_collision, first_entry, ix_discriminants, ix_layouts, ix_table_ok,
    ix_table_result, tagged_result, Decoded, DecodeError, DiscriminantCollision, DispatchEntry,
    Namespace,
};
use crate::options::{
    conflict_ok,
    assign_result, conflict_bucket, conflicting, in_bucket, layout_conflict, lemma_mentioned_member, member,
    mentioned, opts_map, Bucket, Category, ConfigConflict, NameConflict, NamedOpts, Representation,
};
use crate::schema::{Event, Field, Idl, IdlType, Instruction, TypeDef};
use crate::account::{
    account_fails, account_plan_ok, accounts_generable, opts_for, AccountError, AccountPlan,
};
use crate::analysis::{
    def_body_default, defs_resolve, first_dangling_def, first_dangling_layout, layouts_resolve,
};
use crate::program::{cpi_result, first_dangling, references_resolve, CpiInterface, GenerateError};

verus! {

pub proof fn lemma_le_u64_prefix(b: Seq<u8>)
    requires
        b.len() >= 8,
    ensures
        le_u64(b) == le_nat(b.subrange(0, 8)),
{
    let c = b.subrange(0, 8);
    reveal_with_fuel(le_nat, 9);
    assert(c.drop_first() =~= b.subrange(1, 8));
    assert(b.subrange(1, 8).drop_first() =~= b.subrange(2, 8));
    assert(b.subrange(2, 8).drop_first() =~= b.subrange(3, 8));
    assert(b.subrange(3, 8).drop_first() =~= b.subrange(4, 8));
    assert(b.subrange(4, 8).drop_first() =~= b.subrange(5, 8));
    assert(b.subrange(5, 8).drop_first() =~= b.subrange(6, 8));
    assert(b.subrange(6, 8).drop_first() =~= b.subrange(7, 8));
    assert(b.subrange(7, 8).drop_first() =~= b.subrange(8, 8));
}

/// The eight bytes of a discriminant, least significant first, read back.
pub proof fn lemma_discriminant_bytes(d: u64, rest: Seq<u8>)
    ensures
        le_bytes(d as int, 8).len() == 8,
        le_u64(le_bytes(d as int, 8) + rest) == d,
{
    reveal_with_fuel(byte_range, 9);
    lemma_le_round_trip(d as int, 8);
    let b = le_bytes(d as int, 8) + rest;
    lemma_le_u64_prefix(b);
    assert(b.subrange(0, 8) =~= le_bytes(d as int, 8));
}

proof fn lemma_first_entry_unique(t: Seq<DispatchEntry>, d: u64, i: int, k: int)
    requires
        first_entry(t, d, i),
        first_entry(t, d, k),
    ensures
        i == k,
{
    if i < k {
        assert(t[i].discriminant != d);
    }
    if k < i {
        assert(t[k].discriminant != d);
    }
}

/// Every arm of the table decodes the item of its own index.
pub open spec fn arms_in_order(table: Seq<DispatchEntry>) -> bool {
    forall|k: int| 0 <= k < table.len() ==> (#[trigger] table[k]).item == k
}

/// Round trip through a dispatch table whose arms follow the items and
/// whose discriminants are distinct: the discriminant of arm `i` followed
/// by the encoding of values that fit its layout decodes to arm `i` with
/// those values.
pub proof fn lemma_tagged_round_trip(
    ns: Namespace,
    table: Seq<DispatchEntry>,
    defs: Seq<TypeDef>,
    layouts: Seq<Seq<Field>>,
    i: int,
    vals: Seq<ValueView>,
    r: Result<Decoded, DecodeError>,
)
    requires
        arms_in_order(table),
        distinct(discriminants(table)),
        0 <= i < table.len(),
        i < layouts.len(),
        payload_fits(defs, layouts[i], vals),
        tagged_result(
            ns,
            table,
            defs,
            layouts,
            le_bytes(table[i].discriminant as int, 8) + enc_payload(defs, layouts[i], vals),
            r,
        ),
    ensures
        r is Ok,
        r->Ok_0.variant == i,
        values_are(r->Ok_0.values@, vals),
{
    let d = table[i].discriminant;
    let prefix = le_bytes(d as int, 8);
    let body = enc_payload(defs, layouts[i], vals);
    let b = prefix + body;
    lemma_discriminant_bytes(d, body);
    assert(first_entry(table, d, i)) by {
        assert forall|j: int| 0 <= j < i implies #[trigger] table[j].discriminant != d by {
            assert(discriminants(table)[j] != discriminants(table)[i]);
        }
    }
    lemma_payload_round_trip(defs, layouts[i], vals, prefix);
    assert(table[i].item == i);
    let k = choose|k: int|
        first_entry(table, d, k) && match #[trigger] payload_from(defs, layouts[table[k].item as int], b, 8) {
            Ok(vs) => r is Ok && r->Ok_0.variant == k && values_are(r->Ok_0.values@, vs),
            Err(f) => r == Err::<Decoded, DecodeError>(fault_error(f)),
        };
    lemma_first_entry_unique(table, d, i, k);
}

/// Round trip of events: with distinct discriminants, the discriminant of
/// event `i` followed by the encoding of values that fit its fields decodes
/// to variant `i` with those values.
pub proof fn lemma_event_round_trip(
    evs: Seq<Event>,
    table: Seq<DispatchEntry>,
    defs: Seq<TypeDef>,
    i: int,
    vals: Seq<ValueView>,
    r: Result<Decoded, DecodeError>,
)
    requires
        event_table_ok(evs, table),
        distinct(discriminants(table)),
        0 <= i < evs.len(),
        payload_fits(defs, evs[i].fields@, vals),
        tagged_result(
            Namespace::Event,
            table,
            defs,
            event_layouts(evs),
            le_bytes(table[i].discriminant as int, 8) + enc_payload(defs, evs[i].fields@, vals),
            r,
        ),
    ensures
        r is Ok,
        r->Ok_0.variant == i,
        values_are(r->Ok_0.values@, vals),
{
    assert(event_layouts(evs)[i] == evs[i].fields@);
    lemma_tagged_round_trip(Namespace::Event, table, defs, event_layouts(evs), i, vals, r);
}

/// Round trip of instructions: with distinct discriminants, the
/// discriminant of instruction `i` followed by the encoding of values that
/// fit its arguments decodes to variant `i` with those values.
pub proof fn lemma_instruction_round_trip(
    ixs: Seq<Instruction>,
    table: Seq<DispatchEntry>,
    defs: Seq<TypeDef>,
    i: int,
    vals: Seq<ValueView>,
    r: Result<Decoded, DecodeError>,
)
    requires
        ix_table_ok(ixs, table),
        distinct(discriminants(table)),
        0 <= i < ixs.len(),
        payload_fits(defs, ixs[i].args@, vals),
        tagged_result(
            Namespace::Global,
            table,
            defs,
            ix_layouts(ixs),
            le_bytes(table[i].discriminant as int, 8) + enc_payload(defs, ixs[i].args@, vals),
            r,
        ),
    ensures
        r is Ok,
        r->Ok_0.variant == i,
        values_are(r->Ok_0.values@, vals),
{
    assert(ix_layouts(ixs)[i] == ixs[i].args@);
    lemma_tagged_round_trip(Namespace::Global, table, defs, ix_layouts(ixs), i, vals, r);
}

/// A buffer whose leading eight bytes match no arm of the table fails with
/// `UnknownVariant`, carrying the namespace and that discriminant.
pub proof fn lemma_unknown_discriminant(
    ns: Namespace,
    table: Seq<DispatchEntry>,
    defs: Seq<TypeDef>,
    layouts: Seq<Seq<Field>>,
    b: Seq<u8>,
    r: Result<Decoded, DecodeError>,
)
    requires
        tagged_result(ns, table, defs, layouts, b, r),
        b.len() >= 8,
        forall|i: int| 0 <= i < table.len() ==> #[trigger] table[i].discriminant != le_u64(b) as u64,
    ensures
        r == Err::<Decoded, DecodeError>(
            DecodeError::UnknownVariant { namespace: ns, discriminant: le_u64(b) as u64 },
        ),
{
}


proof fn lemma_first_collision_unique(d: Seq<u64>, c1: DiscriminantCollision, c2: DiscriminantCollision)
    requires
        first_collision(d, c1),
        first_collision(d, c2),
    ensures
        c1 == c2,
{
    if c1.second < c2.second {
        assert(d.take(c2.second as int)[c1.first as int] == d.take(c2.second as int)[c1.second as int]);
    }
    if c2.second < c1.second {
        assert(d.take(c1.second as int)[c2.first as int] == d.take(c1.second as int)[c2.second as int]);
    }
    if c1.first < c2.first {
        assert(d[c1.first as int] != d[c2.second as int]);
    }
    if c2.first < c1.first {
        assert(d[c2.first as int] != d[c1.second as int]);
    }
}

/// Two dispatch entries carry the same variant, payload type, discriminant
/// and item.
pub open spec fn same_entry(a: DispatchEntry, b: DispatchEntry) -> bool {
    a.variant@ == b.variant@ && a.payload_type@ == b.payload_type@ && a.discriminant
        == b.discriminant && a.item == b.item
}

/// Determinism of the instruction table: any two results for the same
/// instructions agree, arm by arm, or fail on the same collision.
pub proof fn lemma_ix_table_deterministic(
    ixs: Seq<Instruction>,
    r1: Result<Vec<DispatchEntry>, DiscriminantCollision>,
    r2: Result<Vec<DispatchEntry>, DiscriminantCollision>,
)
    requires
        ix_table_result(ixs, r1),
        ix_table_result(ixs, r2),
    ensures
        r1 is Ok <==> r2 is Ok,
        r1 is Ok ==> r1->Ok_0@.len() == r2->Ok_0@.len() && forall|i: int|
            0 <= i < r1->Ok_0@.len() ==> same_entry(#[trigger] r1->Ok_0@[i], r2->Ok_0@[i]),
        r1 is Err ==> r1 == r2,
{
    let d = ix_discriminants(ixs);
    match (r1, r2) {
        (Ok(t1), Err(c)) => {
            assert(d[c.first as int] == d[c.second as int]);
        },
        (Err(c), Ok(t2)) => {
            assert(d[c.first as int] == d[c.second as int]);
        },
        (Err(c1), Err(c2)) => {
            lemma_first_collision_unique(d, c1, c2);
        },
        _ => {},
    }
}

/// Determinism of the event table: any two results for the same events
/// agree, arm by arm, or fail on the same collision.
pub proof fn lemma_event_table_deterministic(
    events: Option<Vec<Event>>,
    r1: Result<Option<Vec<DispatchEntry>>, DiscriminantCollision>,
    r2: Result<Option<Vec<DispatchEntry>>, DiscriminantCollision>,
)
    requires
        events_result(events, r1),
        events_result(events, r2),
    ensures
        r1 is Ok <==> r2 is Ok,
        r1 is Ok ==> match (r1->Ok_0, r2->Ok_0) {
            (Some(t1), Some(t2)) => t1@.len() == t2@.len() && forall|i: int|
                0 <= i < t1@.len() ==> same_entry(#[trigger] t1@[i], t2@[i]),
            (None, None) => true,
            _ => false,
        },
        r1 is Err ==> r1 == r2,
{
    if let Some(evs) = events {
        let d = event_discriminants(evs@);
        match (r1, r2) {
            (Ok(_), Err(c)) => {
                assert(d[c.first as int] == d[c.second as int]);
            },
            (Err(c), Ok(_)) => {
                assert(d[c.first as int] == d[c.second as int]);
            },
            (Err(c1), Err(c2)) => {
                lemma_first_collision_unique(d, c1, c2);
            },
            _ => {},
        }
    }
}

/// Two conflict reports say the same of the same name.
pub open spec fn same_conflict(a: NameConflict, b: NameConflict) -> bool {
    &&& a.name@ == b.name@
    &&& a.layout == b.layout
    &&& a.zero_copy == b.zero_copy
    &&& forall|x: Category| #[trigger] a.buckets@.contains(x) <==> b.buckets@.contains(x)
}

/// Some report of `cs` says the same as `c`.
pub open spec fn reported_in(c: NameConflict, cs: Seq<NameConflict>) -> bool {
    exists|k: int| 0 <= k < cs.len() && same_conflict(c, #[trigger] cs[k])
}

/// Determinism of the option assignment: any two results for the same
/// configuration assign the same options to every name, or report the same
/// conflicting names with the same conflicts, whatever their order.
pub proof fn lemma_assignment_deterministic(
    cfg: Seq<Bucket>,
    r1: Result<Vec<NamedOpts>, ConfigConflict>,
    r2: Result<Vec<NamedOpts>, ConfigConflict>,
)
    requires
        assign_result(cfg, r1),
        assign_result(cfg, r2),
    ensures
        r1 is Ok <==> r2 is Ok,
        r1 is Ok ==> opts_map(r1->Ok_0@) == opts_map(r2->Ok_0@),
        r1 is Err ==> forall|i: int|
            0 <= i < r1->Err_0.conflicts@.len() ==> reported_in(
                #[trigger] r1->Err_0.conflicts@[i],
                r2->Err_0.conflicts@,
            ),
{
    if r1 is Ok && r2 is Err {
        let c = r2->Err_0.conflicts@[0];
        assert(mentioned(cfg).contains(c.name@) && conflicting(cfg, c.name@));
    }
    if r1 is Err && r2 is Ok {
        let c = r1->Err_0.conflicts@[0];
        assert(mentioned(cfg).contains(c.name@) && conflicting(cfg, c.name@));
    }
    if r1 is Err && r2 is Err {
        let cs1 = r1->Err_0.conflicts@;
        let cs2 = r2->Err_0.conflicts@;
        assert forall|i: int| 0 <= i < cs1.len() implies reported_in(#[trigger] cs1[i], cs2) by {
            assert(conflict_ok(cfg, cs1[i]) && mentioned(cfg).contains(cs1[i].name@));
            let n = cs1[i].name@;
            assert(mentioned(cfg).contains(n) && conflicting(cfg, n));
            let k = choose|k: int| 0 <= k < cs2.len() && #[trigger] cs2[k].name@ == n;
            assert(conflict_ok(cfg, cs2[k]));
            assert forall|x: Category| #[trigger] cs1[i].buckets@.contains(x) <==> cs2[k].buckets@.contains(x) by {
                assert(cs1[i].buckets@.contains(x) <==> conflict_bucket(cfg, n, x));
                assert(cs2[k].buckets@.contains(x) <==> conflict_bucket(cfg, n, x));
            }
            assert(same_conflict(cs1[i], cs2[k]));
        }
        assert(r1->Err_0.conflicts@ == cs1);
    }
}

/// Stability of instruction discriminants: instructions of the same name
/// get the same discriminant, whatever else either set holds.
pub proof fn lemma_ix_discriminant_stable(
    ixs1: Seq<Instruction>,
    t1: Seq<DispatchEntry>,
    ixs2: Seq<Instruction>,
    t2: Seq<DispatchEntry>,
    i: int,
    j: int,
)
    requires
        ix_table_ok(ixs1, t1),
        ix_table_ok(ixs2, t2),
        0 <= i < ixs1.len(),
        0 <= j < ixs2.len(),
        ixs1[i].name@ == ixs2[j].name@,
    ensures
        t1[i].discriminant == t2[j].discriminant,
{
}

/// Stability of event discriminants: events of the same name get the same
/// discriminant, whatever else either set holds.
pub proof fn lemma_event_discriminant_stable(
    evs1: Seq<Event>,
    t1: Seq<DispatchEntry>,
    evs2: Seq<Event>,
    t2: Seq<DispatchEntry>,
    i: int,
    j: int,
)
    requires
        event_table_ok(evs1, t1),
        event_table_ok(evs2, t2),
        0 <= i < evs1.len(),
        0 <= j < evs2.len(),
        evs1[i].name@ == evs2[j].name@,
    ensures
        t1[i].discriminant == t2[j].discriminant,
{
}

/// A name in two buckets of different layouts makes the assignment fail,
/// and the report names it as a layout conflict with both buckets.
pub proof fn lemma_layout_overlap_rejected(
    cfg: Seq<Bucket>,
    r: Result<Vec<NamedOpts>, ConfigConflict>,
    n: Seq<char>,
    r1: Representation,
    r2: Representation,
    j1: int,
    j2: int,
)
    requires
        assign_result(cfg, r),
        r1 != r2,
        0 <= j1 < cfg.len(),
        0 <= j2 < cfg.len(),
        cfg[j1].category == Category::Repr(r1),
        cfg[j2].category == Category::Repr(r2),
        in_bucket(cfg[j1], n),
        in_bucket(cfg[j2], n),
    ensures
        r is Err,
        exists|i: int|
            0 <= i < r->Err_0.conflicts@.len() && (#[trigger] r->Err_0.conflicts@[i]).name@ == n
                && r->Err_0.conflicts@[i].layout && r->Err_0.conflicts@[i].buckets@.contains(
                Category::Repr(r1),
            ) && r->Err_0.conflicts@[i].buckets@.contains(Category::Repr(r2)),
{
    assert(member(cfg, Category::Repr(r1), n));
    assert(member(cfg, Category::Repr(r2), n));
    assert(layout_conflict(cfg, n));
    lemma_mentioned_member(cfg, n);
    assert(mentioned(cfg).contains(n));
    if let Err(e) = r {
        let cs = e.conflicts@;
        let i = choose|i: int| 0 <= i < cs.len() && #[trigger] cs[i].name@ == n;
        assert(conflict_ok(cfg, cs[i]));
        assert(conflict_bucket(cfg, n, Category::Repr(r1)));
        assert(conflict_bucket(cfg, n, Category::Repr(r2)));
        assert(cs[i].buckets@.contains(Category::Repr(r1)));
    }
}

/// A configuration where no mentioned name is conflicting is accepted.
pub proof fn lemma_no_overlap_accepted(cfg: Seq<Bucket>, r: Result<Vec<NamedOpts>, ConfigConflict>)
    requires
        assign_result(cfg, r),
        forall|m: Seq<char>| #[trigger] mentioned(cfg).contains(m) ==> !conflicting(cfg, m),
    ensures
        r is Ok,
{
    if let Err(e) = r {
        let c = e.conflicts@[0];
        assert(mentioned(cfg).contains(c.name@) && conflicting(cfg, c.name@));
    }
}

/// A primitive type: neither a defined type nor a composite one.
pub open spec fn is_primitive(t: IdlType) -> bool {
    !(t is Defined) && !(t is Optional) && !(t is Vector) && !(t is Array)
}

proof fn lemma_fields_all_default(defs: Seq<TypeDef>, path: Seq<Seq<char>>, fields: Seq<Field>, i: int)
    requires
        0 <= i,
        forall|j: int| i <= j < fields.len() ==> ty_default(defs, path, #[trigger] fields[j].ty)
            == Ok::<bool, Seq<char>>(true),
    ensures
        fields_default(defs, path, fields, i) == Ok::<bool, Seq<char>>(true),
    decreases fields.len() - i,
{
    if i < fields.len() {
        lemma_fields_all_default(defs, path, fields, i + 1);
    }
}

/// Fields of primitive types only can be given a default, whatever the
/// schema holds.
pub proof fn lemma_plain_fields_default(defs: Seq<TypeDef>, path: Seq<Seq<char>>, fields: Seq<Field>)
    requires
        forall|j: int| 0 <= j < fields.len() ==> is_primitive(#[trigger] fields[j].ty),
    ensures
        fields_default(defs, path, fields, 0) == Ok::<bool, Seq<char>>(true),
{
    assert forall|j: int| 0 <= j < fields.len() implies ty_default(defs, path, #[trigger] fields[j].ty)
        == Ok::<bool, Seq<char>>(true) by {
        assert(is_primitive(fields[j].ty));
    }
    lemma_fields_all_default(defs, path, fields, 0);
}

/// An optional field never blocks a default: where every other field can
/// be given one and the option's type resolves, the list can be given one.
pub proof fn lemma_optional_never_blocks(
    defs: Seq<TypeDef>,
    path: Seq<Seq<char>>,
    fields: Seq<Field>,
    k: int,
)
    requires
        0 <= k < fields.len(),
        fields[k].ty is Optional,
        ty_default(defs, path, *fields[k].ty->Optional_0) is Ok,
        forall|j: int| 0 <= j < fields.len() && j != k ==> ty_default(defs, path, #[trigger] fields[j].ty)
            == Ok::<bool, Seq<char>>(true),
    ensures
        fields_default(defs, path, fields, 0) == Ok::<bool, Seq<char>>(true),
{
    assert forall|j: int| 0 <= j < fields.len() implies ty_default(defs, path, #[trigger] fields[j].ty)
        == Ok::<bool, Seq<char>>(true) by {
        if j == k {
            assert(fields[k].ty is Optional);
        }
    }
    lemma_fields_all_default(defs, path, fields, 0);
}

proof fn lemma_fields_blocked(
    defs: Seq<TypeDef>,
    path: Seq<Seq<char>>,
    fields: Seq<Field>,
    k: int,
    i: int,
)
    requires
        0 <= i <= k < fields.len(),
        ty_default(defs, path, fields[k].ty) == Ok::<bool, Seq<char>>(false),
    ensures
        fields_default(defs, path, fields, i) != Ok::<bool, Seq<char>>(true),
    decreases k - i,
{
    if i < k {
        lemma_fields_blocked(defs, path, fields, k, i + 1);
    }
}

/// A non-empty fixed-length array of a defined type that cannot be given a
/// default keeps the whole field list from having one.
pub proof fn lemma_array_of_non_default_blocks(
    defs: Seq<TypeDef>,
    path: Seq<Seq<char>>,
    fields: Seq<Field>,
    k: int,
    name: String,
    len: usize,
)
    requires
        0 <= k < fields.len(),
        fields[k].ty == IdlType::Array(Box::new(IdlType::Defined(name)), len),
        len > 0,
        ty_default(defs, path, IdlType::Defined(name)) == Ok::<bool, Seq<char>>(false),
    ensures
        fields_default(defs, path, fields, 0) != Ok::<bool, Seq<char>>(true),
{
    lemma_fields_blocked(defs, path, fields, k, 0);
}


proof fn lemma_fields_shifted(
    defs: Seq<TypeDef>,
    path: Seq<Seq<char>>,
    fields: Seq<Field>,
    k: int,
    f: Field,
    j: int,
)
    requires
        0 <= k <= j <= fields.len(),
    ensures
        fields_default(defs, path, fields.insert(k, f), j + 1) == fields_default(defs, path, fields, j),
    decreases fields.len() - j,
{
    if j < fields.len() {
        lemma_fields_shifted(defs, path, fields, k, f, j + 1);
        assert(fields.insert(k, f)[j + 1] == fields[j]);
    }
}

proof fn lemma_fields_inserted(
    defs: Seq<TypeDef>,
    path: Seq<Seq<char>>,
    fields: Seq<Field>,
    k: int,
    f: Field,
    i: int,
)
    requires
        0 <= i <= k <= fields.len(),
        ty_default(defs, path, f.ty) == Ok::<bool, Seq<char>>(true),
    ensures
        fields_default(defs, path, fields.insert(k, f), i) == fields_default(defs, path, fields, i),
    decreases k - i,
{
    if i < k {
        lemma_fields_inserted(defs, path, fields, k, f, i + 1);
        assert(fields.insert(k, f)[i] == fields[i]);
    } else {
        lemma_fields_shifted(defs, path, fields, k, f, k);
        assert(fields.insert(k, f)[k] == f);
    }
}

/// Inserting an optional field whose type resolves anywhere in a field list
/// changes neither whether the list can be given a default nor the
/// dangling name it reports.
pub proof fn lemma_optional_insertion(
    defs: Seq<TypeDef>,
    path: Seq<Seq<char>>,
    fields: Seq<Field>,
    k: int,
    f: Field,
)
    requires
        0 <= k <= fields.len(),
        f.ty is Optional,
        ty_default(defs, path, *f.ty->Optional_0) is Ok,
    ensures
        fields_default(defs, path, fields.insert(k, f), 0) == fields_default(defs, path, fields, 0),
{
    lemma_fields_inserted(defs, path, fields, k, f, 0);
}


proof fn lemma_first_dangling_def_unique(defs: Seq<TypeDef>, items: Seq<TypeDef>, e1: Seq<char>, e2: Seq<char>)
    requires
        first_dangling_def(defs, items, e1),
        first_dangling_def(defs, items, e2),
    ensures
        e1 == e2,
{
    let i1 = choose|i: int|
        0 <= i < items.len() && #[trigger] def_body_default(defs, items[i]) == Err::<bool, Seq<char>>(e1)
            && defs_resolve(defs, items, i);
    let i2 = choose|i: int|
        0 <= i < items.len() && #[trigger] def_body_default(defs, items[i]) == Err::<bool, Seq<char>>(e2)
            && defs_resolve(defs, items, i);
    if i1 < i2 {
        assert(def_body_default(defs, items[i1]) is Ok);
    }
    if i2 < i1 {
        assert(def_body_default(defs, items[i2]) is Ok);
    }
}

proof fn lemma_first_dangling_layout_unique(defs: Seq<TypeDef>, ls: Seq<Seq<Field>>, e1: Seq<char>, e2: Seq<char>)
    requires
        first_dangling_layout(defs, ls, e1),
        first_dangling_layout(defs, ls, e2),
    ensures
        e1 == e2,
{
    let i1 = choose|i: int|
        0 <= i < ls.len() && #[trigger] fields_default(defs, seq![], ls[i], 0) == Err::<bool, Seq<char>>(e1)
            && layouts_resolve(defs, ls, i);
    let i2 = choose|i: int|
        0 <= i < ls.len() && #[trigger] fields_default(defs, seq![], ls[i], 0) == Err::<bool, Seq<char>>(e2)
            && layouts_resolve(defs, ls, i);
    if i1 < i2 {
        assert(fields_default(defs, seq![], ls[i1], 0) is Ok);
    }
    if i2 < i1 {
        assert(fields_default(defs, seq![], ls[i2], 0) is Ok);
    }
}

proof fn lemma_first_dangling_excludes(idl: Idl, e: Seq<char>)
    requires
        first_dangling(idl, e),
    ensures
        !references_resolve(idl),
{
    if first_dangling_def(idl.types@, idl.types@, e) {
        let i = choose|i: int|
            0 <= i < idl.types@.len() && #[trigger] def_body_default(idl.types@, idl.types@[i])
                == Err::<bool, Seq<char>>(e) && defs_resolve(idl.types@, idl.types@, i);
        assert(def_body_default(idl.types@, idl.types@[i]) is Err);
    } else if first_dangling_layout(idl.types@, ix_layouts(idl.instructions@), e) {
        let ls = ix_layouts(idl.instructions@);
        let i = choose|i: int|
            0 <= i < ls.len() && #[trigger] fields_default(idl.types@, seq![], ls[i], 0) == Err::<bool, Seq<char>>(e)
                && layouts_resolve(idl.types@, ls, i);
        assert(fields_default(idl.types@, seq![], ls[i], 0) is Err);
    } else {
        let evs = idl.events->Some_0;
        let ls = event_layouts(evs@);
        let i = choose|i: int|
            0 <= i < ls.len() && #[trigger] fields_default(idl.types@, seq![], ls[i], 0) == Err::<bool, Seq<char>>(e)
                && layouts_resolve(idl.types@, ls, i);
        assert(fields_default(idl.types@, seq![], ls[i], 0) is Err);
    }
}

proof fn lemma_dangling_unique(idl: Idl, e1: Seq<char>, e2: Seq<char>)
    requires
        first_dangling(idl, e1),
        first_dangling(idl, e2),
    ensures
        e1 == e2,
{
    let d1 = first_dangling_def(idl.types@, idl.types@, e1);
    let d2 = first_dangling_def(idl.types@, idl.types@, e2);
    if d1 && d2 {
        lemma_first_dangling_def_unique(idl.types@, idl.types@, e1, e2);
    } else if d1 || d2 {
        let e = if d1 { e1 } else { e2 };
        let i = choose|i: int|
            0 <= i < idl.types@.len() && #[trigger] def_body_default(idl.types@, idl.types@[i])
                == Err::<bool, Seq<char>>(e) && defs_resolve(idl.types@, idl.types@, i);
        assert(def_body_default(idl.types@, idl.types@[i]) is Err);
    } else {
        let ls = ix_layouts(idl.instructions@);
        let x1 = first_dangling_layout(idl.types@, ls, e1);
        let x2 = first_dangling_layout(idl.types@, ls, e2);
        if x1 && x2 {
            lemma_first_dangling_layout_unique(idl.types@, ls, e1, e2);
        } else if x1 || x2 {
            let e = if x1 { e1 } else { e2 };
            let i = choose|i: int|
                0 <= i < ls.len() && #[trigger] fields_default(idl.types@, seq![], ls[i], 0) == Err::<bool, Seq<char>>(e)
                    && layouts_resolve(idl.types@, ls, i);
            assert(fields_default(idl.types@, seq![], ls[i], 0) is Err);
        } else {
            let evs = idl.events->Some_0;
            lemma_first_dangling_layout_unique(idl.types@, event_layouts(evs@), e1, e2);
        }
    }
}

proof fn lemma_account_error_not_generable(typedefs: Seq<TypeDef>, accounts: Seq<TypeDef>, i: int, e: AccountError)
    requires
        0 <= i < accounts.len(),
        account_fails(typedefs, accounts, i, e),
    ensures
        !accounts_generable(typedefs, accounts, accounts.len() as int),
{
    assert(!(accounts[i].ty is Struct && fields_default(typedefs, seq![], accounts[i].ty->Struct_fields@, 0) is Ok));
}

/// Two account errors say the same.
pub open spec fn same_account_error(a: AccountError, b: AccountError) -> bool {
    match (a, b) {
        (AccountError::Dangling(x), AccountError::Dangling(y)) => x.name@ == y.name@,
        (
            AccountError::UnsupportedShape { index: i, name: n },
            AccountError::UnsupportedShape { index: j, name: m },
        ) => i == j && n@ == m@,
        _ => false,
    }
}

/// Two generation errors say the same.
pub open spec fn same_generate_error(a: GenerateError, b: GenerateError) -> bool {
    match (a, b) {
        (GenerateError::Dangling(x), GenerateError::Dangling(y)) => x.name@ == y.name@,
        (GenerateError::Account(x), GenerateError::Account(y)) => same_account_error(x, y),
        (GenerateError::InstructionCollision(x), GenerateError::InstructionCollision(y)) => x == y,
        (GenerateError::EventCollision(x), GenerateError::EventCollision(y)) => x == y,
        _ => false,
    }
}

/// Two account plans carry the same declaration.
pub open spec fn same_plan(a: AccountPlan, b: AccountPlan) -> bool {
    &&& a.struct_name@ == b.struct_name@
    &&& a.opts == b.opts
    &&& a.derive_default == b.derive_default
    &&& a.derive_account_encoding == b.derive_account_encoding
    &&& a.derive_compact_encoding == b.derive_compact_encoding
    &&& a.derive_compact_clone == b.derive_compact_clone
}

/// Determinism of generation: from the same definition and options, any
/// two results carry the same account plans, the same instruction and event
/// tables, or the same error.
pub proof fn lemma_generation_deterministic(
    idl: Idl,
    opts: Seq<NamedOpts>,
    r1: Result<CpiInterface, GenerateError>,
    r2: Result<CpiInterface, GenerateError>,
)
    requires
        cpi_result(idl, opts, r1),
        cpi_result(idl, opts, r2),
    ensures
        r1 is Ok <==> r2 is Ok,
        r1 is Ok ==> r1->Ok_0.accounts@.len() == r2->Ok_0.accounts@.len() && (forall|i: int|
            0 <= i < r1->Ok_0.accounts@.len() ==> same_plan(
                #[trigger] r1->Ok_0.accounts@[i],
                r2->Ok_0.accounts@[i],
            )) && r1->Ok_0.instructions@.len() == r2->Ok_0.instructions@.len() && (forall|i: int|
            0 <= i < r1->Ok_0.instructions@.len() ==> same_entry(
                #[trigger] r1->Ok_0.instructions@[i],
                r2->Ok_0.instructions@[i],
            )) && match (r1->Ok_0.events, r2->Ok_0.events) {
            (Some(t1), Some(t2)) => t1@.len() == t2@.len() && forall|i: int|
                0 <= i < t1@.len() ==> same_entry(#[trigger] t1@[i], t2@[i]),
            (None, None) => true,
            _ => false,
        },
        r1 is Err ==> same_generate_error(r1->Err_0, r2->Err_0),
{
    let ixs = idl.instructions@;
    let ixd = ix_discriminants(ixs);
    let all = idl.accounts@.len() as int;
    match r1 {
        Ok(c1) => match r2 {
            Ok(c2) => {
                lemma_ix_table_deterministic(ixs, Ok(c1.instructions), Ok(c2.instructions));
                lemma_event_table_deterministic(idl.events, Ok(c1.events), Ok(c2.events));
                let p1 = c1.accounts@;
                let p2 = c2.accounts@;
                assert forall|i: int| 0 <= i < p1.len() implies same_plan(#[trigger] p1[i], p2[i]) by {
                    let acc = idl.accounts@[i];
                    assert(acc.ty is Struct);
                    let fields = acc.ty->Struct_fields;
                    assert(account_plan_ok(
                        idl.types@,
                        acc.name@,
                        fields@,
                        opts_for(opts, acc.name@),
                        p1[i],
                    ));
                    assert(account_plan_ok(
                        idl.types@,
                        acc.name@,
                        fields@,
                        opts_for(opts, acc.name@),
                        p2[i],
                    ));
                }
            },
            Err(GenerateError::Dangling(e)) => {
                lemma_first_dangling_excludes(idl, e.name@);
            },
            Err(GenerateError::Account(e)) => {
                let i = choose|i: int| 0 <= i < idl.accounts@.len() && account_fails(idl.types@, idl.accounts@, i, e)
                    && accounts_generable(idl.types@, idl.accounts@, i);
                lemma_account_error_not_generable(idl.types@, idl.accounts@, i, e);
            },
            Err(GenerateError::InstructionCollision(c)) => {
                assert(ixd[c.first as int] == ixd[c.second as int]);
            },
            Err(GenerateError::EventCollision(c)) => {
                let evs = idl.events->Some_0;
                let d = event_discriminants(evs@);
                assert(d[c.first as int] == d[c.second as int]);
            },
        },
        Err(GenerateError::Dangling(e1)) => {
            lemma_first_dangling_excludes(idl, e1.name@);
            match r2 {
                Err(GenerateError::Dangling(e2)) => {
                    lemma_dangling_unique(idl, e1.name@, e2.name@);
                },
                Err(GenerateError::Account(e)) => {
                    let i = choose|i: int| 0 <= i < idl.accounts@.len() && account_fails(idl.types@, idl.accounts@, i, e)
                        && accounts_generable(idl.types@, idl.accounts@, i);
                    lemma_account_error_not_generable(idl.types@, idl.accounts@, i, e);
                    assert(!first_dangling_def(idl.types@, idl.types@, e1.name@)) by {
                        if first_dangling_def(idl.types@, idl.types@, e1.name@) {
                            let k = choose|k: int|
                                0 <= k < idl.types@.len() && #[trigger] def_body_default(idl.types@, idl.types@[k])
                                    == Err::<bool, Seq<char>>(e1.name@) && defs_resolve(idl.types@, idl.types@, k);
                            assert(def_body_default(idl.types@, idl.types@[k]) is Ok);
                        }
                    }
                },
                _ => {},
            }
        },
        Err(GenerateError::Account(e1)) => {
            let i1 = choose|i: int| 0 <= i < idl.accounts@.len() && account_fails(idl.types@, idl.accounts@, i, e1)
                && accounts_generable(idl.types@, idl.accounts@, i);
            lemma_account_error_not_generable(idl.types@, idl.accounts@, i1, e1);
            match r2 {
                Err(GenerateError::Account(e2)) => {
                    let i2 = choose|i: int| 0 <= i < idl.accounts@.len() && account_fails(idl.types@, idl.accounts@, i, e2)
                        && accounts_generable(idl.types@, idl.accounts@, i);
                    if i1 < i2 {
                        assert(idl.accounts@[i1].ty is Struct);
                    }
                    if i2 < i1 {
                        assert(idl.accounts@[i2].ty is Struct);
                    }
                },
                Err(GenerateError::Dangling(e2)) => {
                    assert(!first_dangling_def(idl.types@, idl.types@, e2.name@)) by {
                        if first_dangling_def(idl.types@, idl.types@, e2.name@) {
                            let k = choose|k: int|
                                0 <= k < idl.types@.len() && #[trigger] def_body_default(idl.types@, idl.types@[k])
                                    == Err::<bool, Seq<char>>(e2.name@) && defs_resolve(idl.types@, idl.types@, k);
                            assert(def_body_default(idl.types@, idl.types@[k]) is Ok);
                        }
                    }
                },
                _ => {},
            }
        },
        Err(GenerateError::InstructionCollision(c1)) => {
            assert(ixd[c1.first as int] == ixd[c1.second as int]);
            match r2 {
                Err(GenerateError::InstructionCollision(c2)) => {
                    lemma_ix_table_deterministic(ixs, Err(c1), Err(c2));
                },
                Err(GenerateError::Dangling(e)) => {
                    lemma_first_dangling_excludes(idl, e.name@);
                },
                Err(GenerateError::Account(e)) => {
                    let i = choose|i: int| 0 <= i < idl.accounts@.len() && account_fails(idl.types@, idl.accounts@, i, e)
                        && accounts_generable(idl.types@, idl.accounts@, i);
                    lemma_account_error_not_generable(idl.types@, idl.accounts@, i, e);
                },
                _ => {},
            }
        },
        Err(GenerateError::EventCollision(c1)) => {
            let evs = idl.events->Some_0;
            let d = event_discriminants(evs@);
            assert(d[c1.first as int] == d[c1.second as int]);
            match r2 {
                Err(GenerateError::EventCollision(c2)) => {
                    lemma_event_table_deterministic(idl.events, Err(c1), Err(c2));
                },
                Err(GenerateError::Dangling(e)) => {
                    lemma_first_dangling_excludes(idl, e.name@);
                },
                Err(GenerateError::Account(e)) => {
                    let i = choose|i: int| 0 <= i < idl.accounts@.len() && account_fails(idl.types@, idl.accounts@, i, e)
                        && accounts_generable(idl.types@, idl.accounts@, i);
                    lemma_account_error_not_generable(idl.types@, idl.accounts@, i, e);
                },
                Err(GenerateError::InstructionCollision(c)) => {
                    assert(ixd[c.first as int] == ixd[c.second as int]);
                },
                _ => {},
            }
        },
    }
}

} // verus!
