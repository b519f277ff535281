use vstd::prelude::*;
use crate::codec::{
    byte_range, copy_bytes, dec_scalar, decode_scalar, enc_scalar, is_scalar, le_bytes, le_nat,
    lemma_enc_scalar_len, lemma_le_nat_bound, lemma_le_round_trip, lemma_scalar_round_trip,
    read_uint, scalar_fits, scalar_width, width_of, DecodeFault, Scalar, ScalarView,
};
use crate::schema::{def_index, find_def, Field, IdlType, TypeDef, TypeDefTy};

verus! {

/// How deep a decoded value may nest: each option, sequence element,
/// struct field, variant field and alias is one level.
pub const MAX_DEPTH: u64 = 64;

/// A decoded value.
#[derive(Debug, PartialEq, Eq)]
pub enum Value {
    Scalar(Scalar),
    /// The content of a byte string or a text field.
    Bytes(Vec<u8>),
    Optional(Option<Box<Value>>),
    /// The elements of a vector or of a fixed-length array.
    Sequence(Vec<Value>),
    /// The fields of a struct, in order.
    Struct(Vec<Value>),
    /// The index of an enum variant and that variant's fields.
    Variant(u8, Vec<Value>),
}

/// The mathematical value a decoded value stands for.
pub enum ValueView {
    Scalar(ScalarView),
    Bytes(Seq<u8>),
    Optional(Option<Box<ValueView>>),
    Sequence(Seq<ValueView>),
    Struct(Seq<ValueView>),
    Variant(int, Seq<ValueView>),
}

/// `v` stands for `w`.
pub open spec fn value_is(v: Value, w: ValueView) -> bool
    decreases w,
{
    match (v, w) {
        (Value::Scalar(s), ValueView::Scalar(x)) => s@ == x,
        (Value::Bytes(a), ValueView::Bytes(c)) => a@ == c,
        (Value::Optional(None), ValueView::Optional(None)) => true,
        (Value::Optional(Some(bv)), ValueView::Optional(Some(bw))) => value_is(*bv, *bw),
        (Value::Sequence(vs), ValueView::Sequence(ws)) => vs@.len() == ws.len() && forall|i: int|
            0 <= i < ws.len() ==> value_is(#[trigger] vs@[i], ws[i]),
        (Value::Struct(vs), ValueView::Struct(ws)) => vs@.len() == ws.len() && forall|i: int|
            0 <= i < ws.len() ==> value_is(#[trigger] vs@[i], ws[i]),
        (Value::Variant(k, vs), ValueView::Variant(j, ws)) => k as int == j && vs@.len() == ws.len()
            && forall|i: int| 0 <= i < ws.len() ==> value_is(#[trigger] vs@[i], ws[i]),
        _ => false,
    }
}

/// The values stand for the views, one for one.
pub open spec fn values_are(vs: Seq<Value>, ws: Seq<ValueView>) -> bool {
    vs.len() == ws.len() && forall|i: int| 0 <= i < ws.len() ==> value_is(#[trigger] vs[i], ws[i])
}


/// The value of type `t` encoded at `pos`, and the position after it, with
/// `fuel` levels of nesting left. A defined type is decoded by its
/// definition: a struct as its fields in order, an enum as a one-byte
/// variant index then that variant's fields, an alias as its target.
pub open spec fn dec(defs: Seq<TypeDef>, t: IdlType, b: Seq<u8>, pos: int, fuel: nat) -> Result<
    (ValueView, int),
    DecodeFault,
>
    decreases fuel, 0int, 0int,
{
    let m = DecodeFault::TruncatedOrMalformedPayload;
    if fuel == 0 {
        Err(DecodeFault::UnresolvableLayout)
    } else if is_scalar(t) {
        match dec_scalar(t, b, pos) {
            Some(s) => Ok((ValueView::Scalar(s), pos + scalar_width(t))),
            None => Err(m),
        }
    } else {
        let f = (fuel - 1) as nat;
        match t {
            IdlType::Bytes | IdlType::Text => if pos < 0 || pos + 4 > b.len() {
                Err(m)
            } else {
                let n = le_nat(b.subrange(pos, pos + 4));
                if pos + 4 + n > b.len() {
                    Err(m)
                } else {
                    Ok((ValueView::Bytes(b.subrange(pos + 4, pos + 4 + n)), pos + 4 + n))
                }
            },
            IdlType::Optional(inner) => if pos < 0 || pos + 1 > b.len() {
                Err(m)
            } else if b[pos] == 0 {
                Ok((ValueView::Optional(None), pos + 1))
            } else if b[pos] == 1 {
                match dec(defs, *inner, b, pos + 1, f) {
                    Ok((v, q)) => Ok((ValueView::Optional(Some(Box::new(v))), q)),
                    Err(e) => Err(e),
                }
            } else {
                Err(m)
            },
            IdlType::Vector(inner) => if pos < 0 || pos + 4 > b.len() {
                Err(m)
            } else {
                match dec_seq(defs, *inner, le_nat(b.subrange(pos, pos + 4)) as nat, b, pos + 4, f) {
                    Ok((vs, q)) => Ok((ValueView::Sequence(vs), q)),
                    Err(e) => Err(e),
                }
            },
            IdlType::Array(inner, n) => match dec_seq(defs, *inner, n as nat, b, pos, f) {
                Ok((vs, q)) => Ok((ValueView::Sequence(vs), q)),
                Err(e) => Err(e),
            },
            IdlType::Defined(name) => match def_index(defs, name@) {
                None => Err(DecodeFault::UnresolvableLayout),
                Some(i) => match defs[i].ty {
                    TypeDefTy::Struct { fields } => match dec_list(defs, fields@, fields@.len(), b, pos, f) {
                        Ok((vs, q)) => Ok((ValueView::Struct(vs), q)),
                        Err(e) => Err(e),
                    },
                    TypeDefTy::Enum { variants } => if pos < 0 || pos + 1 > b.len() {
                        Err(m)
                    } else if b[pos] >= variants@.len() {
                        Err(m)
                    } else {
                        let k = b[pos] as int;
                        let fs = variants@[k].fields@;
                        match dec_list(defs, fs, fs.len(), b, pos + 1, f) {
                            Ok((vs, q)) => Ok((ValueView::Variant(k, vs), q)),
                            Err(e) => Err(e),
                        }
                    },
                    TypeDefTy::Alias { target } => dec(defs, target, b, pos, f),
                },
            },
            _ => Err(DecodeFault::UnresolvableLayout),
        }
    }
}

/// `n` consecutive values of type `t` from `pos`.
pub open spec fn dec_seq(defs: Seq<TypeDef>, t: IdlType, n: nat, b: Seq<u8>, pos: int, fuel: nat) -> Result<
    (Seq<ValueView>, int),
    DecodeFault,
>
    decreases fuel, 1int, n,
{
    if n == 0 {
        Ok((seq![], pos))
    } else {
        match dec_seq(defs, t, (n - 1) as nat, b, pos, fuel) {
            Err(e) => Err(e),
            Ok((vs, q)) => match dec(defs, t, b, q, fuel) {
                Err(e) => Err(e),
                Ok((v, r)) => Ok((vs.push(v), r)),
            },
        }
    }
}

/// The first `n` fields of `fields`, in order, from `pos`.
pub open spec fn dec_list(defs: Seq<TypeDef>, fields: Seq<Field>, n: nat, b: Seq<u8>, pos: int, fuel: nat) -> Result<
    (Seq<ValueView>, int),
    DecodeFault,
>
    decreases fuel, 1int, n,
{
    if n == 0 || n > fields.len() {
        Ok((seq![], pos))
    } else {
        match dec_list(defs, fields, (n - 1) as nat, b, pos, fuel) {
            Err(e) => Err(e),
            Ok((vs, q)) => match dec(defs, fields[n - 1].ty, b, q, fuel) {
                Err(e) => Err(e),
                Ok((v, r)) => Ok((vs.push(v), r)),
            },
        }
    }
}

/// The bytes of `v` as a value of type `t`, or `None` where `v` does not
/// fit `t` within `fuel` levels of nesting.
pub open spec fn enc(defs: Seq<TypeDef>, t: IdlType, v: ValueView, fuel: nat) -> Option<Seq<u8>>
    decreases fuel, 0int, 0int,
{
    if fuel == 0 {
        None
    } else if is_scalar(t) {
        match v {
            ValueView::Scalar(s) => if scalar_fits(t, s) {
                Some(enc_scalar(t, s))
            } else {
                None
            },
            _ => None,
        }
    } else {
        let f = (fuel - 1) as nat;
        match t {
            IdlType::Bytes | IdlType::Text => match v {
                ValueView::Bytes(x) => if x.len() < byte_range(4) {
                    Some(le_bytes(x.len() as int, 4) + x)
                } else {
                    None
                },
                _ => None,
            },
            IdlType::Optional(inner) => match v {
                ValueView::Optional(None) => Some(seq![0u8]),
                ValueView::Optional(Some(bx)) => match enc(defs, *inner, *bx, f) {
                    Some(e) => Some(seq![1u8] + e),
                    None => None,
                },
                _ => None,
            },
            IdlType::Vector(inner) => match v {
                ValueView::Sequence(vs) => if vs.len() < byte_range(4) {
                    match enc_seq(defs, *inner, vs, vs.len(), f) {
                        Some(e) => Some(le_bytes(vs.len() as int, 4) + e),
                        None => None,
                    }
                } else {
                    None
                },
                _ => None,
            },
            IdlType::Array(inner, n) => match v {
                ValueView::Sequence(vs) => if vs.len() == n {
                    enc_seq(defs, *inner, vs, vs.len(), f)
                } else {
                    None
                },
                _ => None,
            },
            IdlType::Defined(name) => match def_index(defs, name@) {
                None => None,
                Some(i) => match defs[i].ty {
                    TypeDefTy::Struct { fields } => match v {
                        ValueView::Struct(vs) => if vs.len() == fields@.len() {
                            enc_list(defs, fields@, vs, vs.len(), f)
                        } else {
                            None
                        },
                        _ => None,
                    },
                    TypeDefTy::Enum { variants } => match v {
                        ValueView::Variant(k, vs) => if 0 <= k < variants@.len() && k < 256
                            && vs.len() == variants@[k].fields@.len() {
                            match enc_list(defs, variants@[k].fields@, vs, vs.len(), f) {
                                Some(e) => Some(seq![k as u8] + e),
                                None => None,
                            }
                        } else {
                            None
                        },
                        _ => None,
                    },
                    TypeDefTy::Alias { target } => enc(defs, target, v, f),
                },
            },
            _ => None,
        }
    }
}

/// The bytes of the first `n` values of `vs`, each of type `t`.
pub open spec fn enc_seq(defs: Seq<TypeDef>, t: IdlType, vs: Seq<ValueView>, n: nat, fuel: nat) -> Option<Seq<u8>>
    decreases fuel, 1int, n,
{
    if n == 0 || n > vs.len() {
        Some(seq![])
    } else {
        match (enc_seq(defs, t, vs, (n - 1) as nat, fuel), enc(defs, t, vs[n - 1], fuel)) {
            (Some(a), Some(c)) => Some(a + c),
            _ => None,
        }
    }
}

/// The bytes of the first `n` values of `vs`, laid out by `fields`.
pub open spec fn enc_list(defs: Seq<TypeDef>, fields: Seq<Field>, vs: Seq<ValueView>, n: nat, fuel: nat) -> Option<Seq<u8>>
    decreases fuel, 1int, n,
{
    if n == 0 || n > vs.len() || n > fields.len() {
        Some(seq![])
    } else {
        match (enc_list(defs, fields, vs, (n - 1) as nat, fuel), enc(defs, fields[n - 1].ty, vs[n - 1], fuel)) {
            (Some(a), Some(c)) => Some(a + c),
            _ => None,
        }
    }
}


proof fn lemma_split(b: Seq<u8>, pos: int, a: Seq<u8>, c: Seq<u8>)
    requires
        0 <= pos,
        pos + a.len() + c.len() <= b.len(),
        b.subrange(pos, pos + a.len() + c.len()) == a + c,
    ensures
        b.subrange(pos, pos + a.len()) == a,
        b.subrange(pos + a.len(), pos + a.len() + c.len()) == c,
{
    assert(b.subrange(pos, pos + a.len()) =~= (a + c).subrange(0, a.len() as int));
    assert((a + c).subrange(0, a.len() as int) =~= a);
    assert(b.subrange(pos + a.len(), pos + a.len() + c.len()) =~= (a + c).subrange(
        a.len() as int,
        (a.len() + c.len()) as int,
    ));
    assert((a + c).subrange(a.len() as int, (a.len() + c.len()) as int) =~= c);
}

/// Decoding the bytes of a value that fits its type gives the value back.
pub proof fn lemma_value_round_trip(defs: Seq<TypeDef>, t: IdlType, v: ValueView, fuel: nat, b: Seq<u8>, pos: int)
    requires
        enc(defs, t, v, fuel) is Some,
        0 <= pos,
        pos + enc(defs, t, v, fuel)->Some_0.len() <= b.len(),
        b.subrange(pos, pos + enc(defs, t, v, fuel)->Some_0.len()) == enc(defs, t, v, fuel)->Some_0,
    ensures
        dec(defs, t, b, pos, fuel) == Ok::<(ValueView, int), DecodeFault>(
            (v, pos + enc(defs, t, v, fuel)->Some_0.len()),
        ),
    decreases fuel, 0int, 0int,
{
    let e = enc(defs, t, v, fuel)->Some_0;
    let f = (fuel - 1) as nat;
    if is_scalar(t) {
        let s = v->Scalar_0;
        lemma_enc_scalar_len(t, s);
        lemma_scalar_round_trip(t, s, b, pos);
    } else {
        match t {
            IdlType::Bytes | IdlType::Text => {
                let x = v->Bytes_0;
                lemma_le_round_trip(x.len() as int, 4);
                lemma_split(b, pos, le_bytes(x.len() as int, 4), x);
            },
            IdlType::Optional(inner) => {
                assert(b[pos] == e[0]);
                if let ValueView::Optional(Some(bx)) = v {
                    let ei = enc(defs, *inner, *bx, f)->Some_0;
                    lemma_split(b, pos, seq![1u8], ei);
                    lemma_value_round_trip(defs, *inner, *bx, f, b, pos + 1);
                }
            },
            IdlType::Vector(inner) => {
                let vs = v->Sequence_0;
                let es = enc_seq(defs, *inner, vs, vs.len(), f)->Some_0;
                lemma_le_round_trip(vs.len() as int, 4);
                lemma_split(b, pos, le_bytes(vs.len() as int, 4), es);
                lemma_seq_round_trip(defs, *inner, vs, vs.len(), f, b, pos + 4);
                assert(vs.take(vs.len() as int) =~= vs);
            },
            IdlType::Array(inner, n) => {
                let vs = v->Sequence_0;
                lemma_seq_round_trip(defs, *inner, vs, vs.len(), f, b, pos);
                assert(vs.take(vs.len() as int) =~= vs);
            },
            IdlType::Defined(name) => {
                let i = def_index(defs, name@)->Some_0;
                match defs[i].ty {
                    TypeDefTy::Struct { fields } => {
                        let vs = v->Struct_0;
                        lemma_list_round_trip(defs, fields@, vs, vs.len(), f, b, pos);
                        assert(vs.take(vs.len() as int) =~= vs);
                    },
                    TypeDefTy::Enum { variants } => {
                        let k = v->Variant_0;
                        let vs = v->Variant_1;
                        let fs = variants@[k].fields@;
                        let el = enc_list(defs, fs, vs, vs.len(), f)->Some_0;
                        lemma_split(b, pos, seq![k as u8], el);
                        assert(b.subrange(pos, pos + 1)[0] == b[pos]);
                        assert(b[pos] == k as u8);
                        assert(b[pos] as int == k);
                        lemma_list_round_trip(defs, fs, vs, vs.len(), f, b, pos + 1);
                        assert(vs.take(vs.len() as int) =~= vs);
                    },
                    TypeDefTy::Alias { target } => {
                        lemma_value_round_trip(defs, target, v, f, b, pos);
                    },
                }
            },
            _ => {},
        }
    }
}

pub proof fn lemma_seq_round_trip(
    defs: Seq<TypeDef>,
    t: IdlType,
    vs: Seq<ValueView>,
    n: nat,
    fuel: nat,
    b: Seq<u8>,
    pos: int,
)
    requires
        n <= vs.len(),
        enc_seq(defs, t, vs, n, fuel) is Some,
        0 <= pos,
        pos + enc_seq(defs, t, vs, n, fuel)->Some_0.len() <= b.len(),
        b.subrange(pos, pos + enc_seq(defs, t, vs, n, fuel)->Some_0.len()) == enc_seq(defs, t, vs, n, fuel)->Some_0,
    ensures
        dec_seq(defs, t, n, b, pos, fuel) == Ok::<(Seq<ValueView>, int), DecodeFault>(
            (vs.take(n as int), pos + enc_seq(defs, t, vs, n, fuel)->Some_0.len()),
        ),
    decreases fuel, 1int, n,
{
    if n == 0 {
        assert(vs.take(0) =~= seq![]);
    } else {
        let a = enc_seq(defs, t, vs, (n - 1) as nat, fuel)->Some_0;
        let c = enc(defs, t, vs[n - 1], fuel)->Some_0;
        lemma_split(b, pos, a, c);
        lemma_seq_round_trip(defs, t, vs, (n - 1) as nat, fuel, b, pos);
        lemma_value_round_trip(defs, t, vs[n - 1], fuel, b, pos + a.len());
        assert(vs.take(n as int) =~= vs.take(n - 1).push(vs[n - 1]));
    }
}

pub proof fn lemma_list_round_trip(
    defs: Seq<TypeDef>,
    fields: Seq<Field>,
    vs: Seq<ValueView>,
    n: nat,
    fuel: nat,
    b: Seq<u8>,
    pos: int,
)
    requires
        n <= vs.len(),
        n <= fields.len(),
        enc_list(defs, fields, vs, n, fuel) is Some,
        0 <= pos,
        pos + enc_list(defs, fields, vs, n, fuel)->Some_0.len() <= b.len(),
        b.subrange(pos, pos + enc_list(defs, fields, vs, n, fuel)->Some_0.len()) == enc_list(defs, fields, vs, n, fuel)->Some_0,
    ensures
        dec_list(defs, fields, n, b, pos, fuel) == Ok::<(Seq<ValueView>, int), DecodeFault>(
            (vs.take(n as int), pos + enc_list(defs, fields, vs, n, fuel)->Some_0.len()),
        ),
    decreases fuel, 1int, n,
{
    if n == 0 {
        assert(vs.take(0) =~= seq![]);
    } else {
        let a = enc_list(defs, fields, vs, (n - 1) as nat, fuel)->Some_0;
        let c = enc(defs, fields[n - 1].ty, vs[n - 1], fuel)->Some_0;
        lemma_split(b, pos, a, c);
        lemma_list_round_trip(defs, fields, vs, (n - 1) as nat, fuel, b, pos);
        lemma_value_round_trip(defs, fields[n - 1].ty, vs[n - 1], fuel, b, pos + a.len());
        assert(vs.take(n as int) =~= vs.take(n - 1).push(vs[n - 1]));
    }
}


proof fn lemma_dec_seq_err(defs: Seq<TypeDef>, t: IdlType, k: nat, n: nat, b: Seq<u8>, pos: int, fuel: nat, f: DecodeFault)
    requires
        k <= n,
        dec_seq(defs, t, k, b, pos, fuel) == Err::<(Seq<ValueView>, int), DecodeFault>(f),
    ensures
        dec_seq(defs, t, n, b, pos, fuel) == Err::<(Seq<ValueView>, int), DecodeFault>(f),
    decreases n,
{
    if n > k {
        lemma_dec_seq_err(defs, t, k, (n - 1) as nat, b, pos, fuel, f);
    }
}

proof fn lemma_dec_list_err(defs: Seq<TypeDef>, fields: Seq<Field>, k: nat, n: nat, b: Seq<u8>, pos: int, fuel: nat, f: DecodeFault)
    requires
        k <= n <= fields.len(),
        dec_list(defs, fields, k, b, pos, fuel) == Err::<(Seq<ValueView>, int), DecodeFault>(f),
    ensures
        dec_list(defs, fields, n, b, pos, fuel) == Err::<(Seq<ValueView>, int), DecodeFault>(f),
    decreases n,
{
    if n > k {
        lemma_dec_list_err(defs, fields, k, (n - 1) as nat, b, pos, fuel, f);
    }
}

/// Decodes the value of type `t` at `pos`, with `fuel` levels of nesting
/// left, and the position after it.
pub fn decode_value(defs: &Vec<TypeDef>, t: &IdlType, data: &[u8], pos: usize, fuel: u64) -> (r: Result<
    (Value, usize),
    DecodeFault,
>)
    ensures
        match dec(defs@, *t, data@, pos as int, fuel as nat) {
            Ok((w, q)) => r is Ok && value_is(r->Ok_0.0, w) && r->Ok_0.1 == q,
            Err(f) => r == Err::<(Value, usize), DecodeFault>(f),
        },
    decreases fuel, 0int, 0int,
{
    let len = data.len();
    let m = DecodeFault::TruncatedOrMalformedPayload;
    if fuel == 0 {
        return Err(DecodeFault::UnresolvableLayout);
    }
    let w = width_of(t);
    if w > 0 {
        return match decode_scalar(t, data, pos) {
            Some(s) => {
                proof {
                    assert(pos + w <= len);
                }
                Ok((Value::Scalar(s), pos + w))
            },
            None => Err(m),
        };
    }
    let f = fuel - 1;
    match t {
        IdlType::Bytes | IdlType::Text => {
            if pos > len || 4 > len - pos {
                return Err(m);
            }
            let n = read_uint(data, pos, 4);
            if n > (len - pos - 4) as u128 {
                return Err(m);
            }
            let n = n as usize;
            Ok((Value::Bytes(copy_bytes(data, pos + 4, n)), pos + 4 + n))
        },
        IdlType::Optional(inner) => {
            if pos >= len {
                return Err(m);
            }
            let flag = data[pos];
            if flag == 0 {
                Ok((Value::Optional(None), pos + 1))
            } else if flag == 1 {
                match decode_value(defs, &**inner, data, pos + 1, f) {
                    Ok((v, q)) => Ok((Value::Optional(Some(Box::new(v))), q)),
                    Err(e) => Err(e),
                }
            } else {
                Err(m)
            }
        },
        IdlType::Vector(inner) => {
            if pos > len || 4 > len - pos {
                return Err(m);
            }
            let n = read_uint(data, pos, 4);
            proof {
                lemma_le_nat_bound(data@.subrange(pos as int, pos + 4));
                reveal_with_fuel(byte_range, 5);
            }
            match decode_seq(defs, &**inner, n as usize, data, pos + 4, f) {
                Ok((vs, q)) => Ok((Value::Sequence(vs), q)),
                Err(e) => Err(e),
            }
        },
        IdlType::Array(inner, n) => match decode_seq(defs, &**inner, *n, data, pos, f) {
            Ok((vs, q)) => Ok((Value::Sequence(vs), q)),
            Err(e) => Err(e),
        },
        IdlType::Defined(name) => match find_def(defs, name) {
            None => Err(DecodeFault::UnresolvableLayout),
            Some(i) => match &defs[i].ty {
                TypeDefTy::Struct { fields } => match decode_list(defs, fields, data, pos, f) {
                    Ok((vs, q)) => Ok((Value::Struct(vs), q)),
                    Err(e) => Err(e),
                },
                TypeDefTy::Enum { variants } => {
                    if pos >= len {
                        return Err(m);
                    }
                    let k = data[pos];
                    if k as usize >= variants.len() {
                        return Err(m);
                    }
                    match decode_list(defs, &variants[k as usize].fields, data, pos + 1, f) {
                        Ok((vs, q)) => Ok((Value::Variant(k, vs), q)),
                        Err(e) => Err(e),
                    }
                },
                TypeDefTy::Alias { target } => decode_value(defs, target, data, pos, f),
            },
        },
        _ => Err(DecodeFault::UnresolvableLayout),
    }
}

/// Decodes `n` consecutive values of type `t` from `pos`.
pub fn decode_seq(defs: &Vec<TypeDef>, t: &IdlType, n: usize, data: &[u8], pos: usize, fuel: u64) -> (r: Result<
    (Vec<Value>, usize),
    DecodeFault,
>)
    ensures
        match dec_seq(defs@, *t, n as nat, data@, pos as int, fuel as nat) {
            Ok((ws, q)) => r is Ok && values_are(r->Ok_0.0@, ws) && r->Ok_0.1 == q,
            Err(f) => r == Err::<(Vec<Value>, usize), DecodeFault>(f),
        },
    decreases fuel, 1int, n,
{
    let mut out: Vec<Value> = Vec::new();
    let ghost mut views: Seq<ValueView> = seq![];
    let mut at: usize = pos;
    let mut k: usize = 0;
    while k < n
        invariant
            0 <= k <= n,
            dec_seq(defs@, *t, k as nat, data@, pos as int, fuel as nat) == Ok::<(Seq<ValueView>, int), DecodeFault>(
                (views, at as int),
            ),
            values_are(out@, views),
        decreases n - k,
    {
        match decode_value(defs, t, data, at, fuel) {
            Err(e) => {
                proof {
                    lemma_dec_seq_err(defs@, *t, (k + 1) as nat, n as nat, data@, pos as int, fuel as nat, e);
                }
                return Err(e);
            },
            Ok((v, q)) => {
                let ghost w = dec(defs@, *t, data@, at as int, fuel as nat)->Ok_0.0;
                let ghost prev = out@;
                out.push(v);
                proof {
                    views = views.push(w);
                    assert forall|i: int| 0 <= i < views.len() implies value_is(#[trigger] out@[i], views[i]) by {
                        if i < prev.len() {
                            assert(out@[i] == prev[i]);
                        }
                    }
                }
                at = q;
            },
        }
        k = k + 1;
    }
    Ok((out, at))
}

/// Decodes the fields laid out by `fields`, in order, from `pos`.
pub fn decode_list(defs: &Vec<TypeDef>, fields: &Vec<Field>, data: &[u8], pos: usize, fuel: u64) -> (r: Result<
    (Vec<Value>, usize),
    DecodeFault,
>)
    ensures
        match dec_list(defs@, fields@, fields@.len(), data@, pos as int, fuel as nat) {
            Ok((ws, q)) => r is Ok && values_are(r->Ok_0.0@, ws) && r->Ok_0.1 == q,
            Err(f) => r == Err::<(Vec<Value>, usize), DecodeFault>(f),
        },
    decreases fuel, 1int, fields@.len(),
{
    let mut out: Vec<Value> = Vec::new();
    let ghost mut views: Seq<ValueView> = seq![];
    let mut at: usize = pos;
    let mut k: usize = 0;
    while k < fields.len()
        invariant
            0 <= k <= fields@.len(),
            dec_list(defs@, fields@, k as nat, data@, pos as int, fuel as nat) == Ok::<(Seq<ValueView>, int), DecodeFault>(
                (views, at as int),
            ),
            values_are(out@, views),
        decreases fields@.len() - k,
    {
        match decode_value(defs, &fields[k].ty, data, at, fuel) {
            Err(e) => {
                proof {
                    lemma_dec_list_err(defs@, fields@, (k + 1) as nat, fields@.len(), data@, pos as int, fuel as nat, e);
                }
                return Err(e);
            },
            Ok((v, q)) => {
                let ghost w = dec(defs@, fields@[k as int].ty, data@, at as int, fuel as nat)->Ok_0.0;
                let ghost prev = out@;
                out.push(v);
                proof {
                    views = views.push(w);
                    assert forall|i: int| 0 <= i < views.len() implies value_is(#[trigger] out@[i], views[i]) by {
                        if i < prev.len() {
                            assert(out@[i] == prev[i]);
                        }
                    }
                }
                at = q;
            },
        }
        k = k + 1;
    }
    Ok((out, at))
}


/// The payload laid out by `fields` from `start` to the end of the bytes:
/// every byte must be used.
pub open spec fn payload_from(defs: Seq<TypeDef>, fields: Seq<Field>, b: Seq<u8>, start: int) -> Result<
    Seq<ValueView>,
    DecodeFault,
> {
    match dec_list(defs, fields, fields.len(), b, start, MAX_DEPTH as nat) {
        Err(e) => Err(e),
        Ok((vs, end)) => if end == b.len() {
            Ok(vs)
        } else {
            Err(DecodeFault::TruncatedOrMalformedPayload)
        },
    }
}

/// A whole payload laid out by `fields`.
pub open spec fn payload(defs: Seq<TypeDef>, fields: Seq<Field>, b: Seq<u8>) -> Result<Seq<ValueView>, DecodeFault> {
    payload_from(defs, fields, b, 0)
}

/// The values fit the layout, one for one, within the nesting bound.
pub open spec fn payload_fits(defs: Seq<TypeDef>, fields: Seq<Field>, vals: Seq<ValueView>) -> bool {
    vals.len() == fields.len() && enc_list(defs, fields, vals, vals.len(), MAX_DEPTH as nat) is Some
}

/// The bytes of values that fit a layout.
pub open spec fn enc_payload(defs: Seq<TypeDef>, fields: Seq<Field>, vals: Seq<ValueView>) -> Seq<u8> {
    enc_list(defs, fields, vals, vals.len(), MAX_DEPTH as nat)->Some_0
}

/// Encoding values that fit a layout, after any prefix, and decoding the
/// payload that follows the prefix gives the values back.
pub proof fn lemma_payload_round_trip(defs: Seq<TypeDef>, fields: Seq<Field>, vals: Seq<ValueView>, prefix: Seq<u8>)
    requires
        payload_fits(defs, fields, vals),
    ensures
        payload_from(defs, fields, prefix + enc_payload(defs, fields, vals), prefix.len() as int)
            == Ok::<Seq<ValueView>, DecodeFault>(vals),
{
    let e = enc_payload(defs, fields, vals);
    let b = prefix + e;
    assert(b.subrange(prefix.len() as int, (prefix.len() + e.len()) as int) =~= e);
    lemma_list_round_trip(defs, fields, vals, vals.len(), MAX_DEPTH as nat, b, prefix.len() as int);
    assert(vals.take(vals.len() as int) =~= vals);
}

/// Decodes the payload laid out by `fields` from `start`, using every byte.
pub fn decode_fields_from(defs: &Vec<TypeDef>, fields: &Vec<Field>, data: &[u8], start: usize) -> (r: Result<
    Vec<Value>,
    DecodeFault,
>)
    ensures
        match payload_from(defs@, fields@, data@, start as int) {
            Ok(ws) => r is Ok && values_are(r->Ok_0@, ws),
            Err(f) => r == Err::<Vec<Value>, DecodeFault>(f),
        },
{
    match decode_list(defs, fields, data, start, MAX_DEPTH) {
        Err(e) => Err(e),
        Ok((vs, end)) => {
            if end != data.len() {
                Err(DecodeFault::TruncatedOrMalformedPayload)
            } else {
                Ok(vs)
            }
        },
    }
}

/// Decodes a payload laid out by `fields`, using every byte.
pub fn decode_fields(defs: &Vec<TypeDef>, fields: &Vec<Field>, data: &[u8]) -> (r: Result<Vec<Value>, DecodeFault>)
    ensures
        match payload(defs@, fields@, data@) {
            Ok(ws) => r is Ok && values_are(r->Ok_0@, ws),
            Err(f) => r == Err::<Vec<Value>, DecodeFault>(f),
        },
{
    decode_fields_from(defs, fields, data, 0)
}


/// Bytes left over after the encoding of values that fit a layout make the
/// payload malformed.
pub proof fn lemma_extended_payload_rejected(
    defs: Seq<TypeDef>,
    fields: Seq<Field>,
    vals: Seq<ValueView>,
    prefix: Seq<u8>,
    extra: Seq<u8>,
)
    requires
        payload_fits(defs, fields, vals),
        extra.len() > 0,
    ensures
        payload_from(defs, fields, prefix + enc_payload(defs, fields, vals) + extra, prefix.len() as int)
            == Err::<Seq<ValueView>, DecodeFault>(DecodeFault::TruncatedOrMalformedPayload),
{
    let e = enc_payload(defs, fields, vals);
    let b = prefix + e + extra;
    assert(b.subrange(prefix.len() as int, (prefix.len() + e.len()) as int) =~= e);
    lemma_list_round_trip(defs, fields, vals, vals.len(), MAX_DEPTH as nat, b, prefix.len() as int);
}


/// `b` is a prefix of `c`.
pub open spec fn is_prefix(b: Seq<u8>, c: Seq<u8>) -> bool {
    b.len() <= c.len() && b == c.subrange(0, b.len() as int)
}

proof fn lemma_prefix_reads(b: Seq<u8>, c: Seq<u8>, x: int, y: int)
    requires
        is_prefix(b, c),
        0 <= x <= y <= b.len(),
    ensures
        b.subrange(x, y) == c.subrange(x, y),
        x < b.len() ==> b[x] == c[x],
{
    assert(b.subrange(x, y) =~= c.subrange(x, y));
    if x < b.len() {
        assert(b[x] == c.subrange(0, b.len() as int)[x]);
    }
}

/// Decoding a prefix of a buffer that decodes gives the same result, or
/// fails as malformed when it runs out of bytes.
pub proof fn lemma_dec_prefix(defs: Seq<TypeDef>, t: IdlType, b: Seq<u8>, c: Seq<u8>, pos: int, fuel: nat)
    requires
        is_prefix(b, c),
        dec(defs, t, c, pos, fuel) is Ok,
    ensures
        dec(defs, t, b, pos, fuel) == dec(defs, t, c, pos, fuel) || dec(defs, t, b, pos, fuel)
            == Err::<(ValueView, int), DecodeFault>(DecodeFault::TruncatedOrMalformedPayload),
    decreases fuel, 0int, 0int,
{
    let f = (fuel - 1) as nat;
    if is_scalar(t) {
        let w = scalar_width(t);
        if pos >= 0 && pos + w <= b.len() {
            lemma_prefix_reads(b, c, pos, pos + w);
        }
    } else {
        match t {
            IdlType::Bytes | IdlType::Text => {
                if pos >= 0 && pos + 4 <= b.len() {
                    lemma_prefix_reads(b, c, pos, pos + 4);
                    let n = le_nat(c.subrange(pos, pos + 4));
                    lemma_le_nat_bound(c.subrange(pos, pos + 4));
                    if pos + 4 + n <= b.len() {
                        lemma_prefix_reads(b, c, pos + 4, pos + 4 + n);
                    }
                }
            },
            IdlType::Optional(inner) => {
                if pos >= 0 && pos + 1 <= b.len() {
                    lemma_prefix_reads(b, c, pos, pos + 1);
                    if c[pos] == 1 {
                        lemma_dec_prefix(defs, *inner, b, c, pos + 1, f);
                    }
                }
            },
            IdlType::Vector(inner) => {
                if pos >= 0 && pos + 4 <= b.len() {
                    lemma_prefix_reads(b, c, pos, pos + 4);
                    lemma_dec_seq_prefix(defs, *inner, le_nat(c.subrange(pos, pos + 4)) as nat, b, c, pos + 4, f);
                }
            },
            IdlType::Array(inner, n) => {
                lemma_dec_seq_prefix(defs, *inner, n as nat, b, c, pos, f);
            },
            IdlType::Defined(name) => {
                let i = def_index(defs, name@)->Some_0;
                match defs[i].ty {
                    TypeDefTy::Struct { fields } => {
                        lemma_dec_list_prefix(defs, fields@, fields@.len(), b, c, pos, f);
                    },
                    TypeDefTy::Enum { variants } => {
                        if pos >= 0 && pos + 1 <= b.len() {
                            lemma_prefix_reads(b, c, pos, pos + 1);
                            let k = c[pos] as int;
                            let fs = variants@[k].fields@;
                            lemma_dec_list_prefix(defs, fs, fs.len(), b, c, pos + 1, f);
                        }
                    },
                    TypeDefTy::Alias { target } => {
                        lemma_dec_prefix(defs, target, b, c, pos, f);
                    },
                }
            },
            _ => {},
        }
    }
}

pub proof fn lemma_dec_seq_prefix(defs: Seq<TypeDef>, t: IdlType, n: nat, b: Seq<u8>, c: Seq<u8>, pos: int, fuel: nat)
    requires
        is_prefix(b, c),
        dec_seq(defs, t, n, c, pos, fuel) is Ok,
    ensures
        dec_seq(defs, t, n, b, pos, fuel) == dec_seq(defs, t, n, c, pos, fuel) || dec_seq(defs, t, n, b, pos, fuel)
            == Err::<(Seq<ValueView>, int), DecodeFault>(DecodeFault::TruncatedOrMalformedPayload),
    decreases fuel, 1int, n,
{
    if n > 0 {
        lemma_dec_seq_prefix(defs, t, (n - 1) as nat, b, c, pos, fuel);
        if dec_seq(defs, t, (n - 1) as nat, b, pos, fuel) is Ok {
            let q = dec_seq(defs, t, (n - 1) as nat, c, pos, fuel)->Ok_0.1;
            lemma_dec_prefix(defs, t, b, c, q, fuel);
        }
    }
}

pub proof fn lemma_dec_list_prefix(
    defs: Seq<TypeDef>,
    fields: Seq<Field>,
    n: nat,
    b: Seq<u8>,
    c: Seq<u8>,
    pos: int,
    fuel: nat,
)
    requires
        is_prefix(b, c),
        dec_list(defs, fields, n, c, pos, fuel) is Ok,
    ensures
        dec_list(defs, fields, n, b, pos, fuel) == dec_list(defs, fields, n, c, pos, fuel) || dec_list(
            defs,
            fields,
            n,
            b,
            pos,
            fuel,
        ) == Err::<(Seq<ValueView>, int), DecodeFault>(DecodeFault::TruncatedOrMalformedPayload),
    decreases fuel, 1int, n,
{
    if n > 0 && n <= fields.len() {
        lemma_dec_list_prefix(defs, fields, (n - 1) as nat, b, c, pos, fuel);
        if dec_list(defs, fields, (n - 1) as nat, b, pos, fuel) is Ok {
            let q = dec_list(defs, fields, (n - 1) as nat, c, pos, fuel)->Ok_0.1;
            lemma_dec_prefix(defs, fields[n - 1].ty, b, c, q, fuel);
        }
    }
}

/// A payload cut short of the encoding of values that fit its layout is
/// malformed.
pub proof fn lemma_truncated_payload_rejected(
    defs: Seq<TypeDef>,
    fields: Seq<Field>,
    vals: Seq<ValueView>,
    prefix: Seq<u8>,
    m: int,
)
    requires
        payload_fits(defs, fields, vals),
        0 <= m < enc_payload(defs, fields, vals).len(),
    ensures
        payload_from(defs, fields, prefix + enc_payload(defs, fields, vals).take(m), prefix.len() as int)
            == Err::<Seq<ValueView>, DecodeFault>(DecodeFault::TruncatedOrMalformedPayload),
{
    let e = enc_payload(defs, fields, vals);
    let c = prefix + e;
    let b = prefix + e.take(m);
    assert(c.subrange(prefix.len() as int, (prefix.len() + e.len()) as int) =~= e);
    lemma_list_round_trip(defs, fields, vals, vals.len(), MAX_DEPTH as nat, c, prefix.len() as int);
    assert(b =~= c.subrange(0, b.len() as int));
    lemma_dec_list_prefix(defs, fields, fields.len(), b, c, prefix.len() as int, MAX_DEPTH as nat);
}

} // verus!
