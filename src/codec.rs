use vstd::prelude::*;
use crate::schema::IdlType;

verus! {

/// `256` to the power `n`: the number of values `n` bytes can spell.
pub open spec fn byte_range(n: nat) -> int
    decreases n,
{
    if n == 0 {
        1
    } else {
        256 * byte_range((n - 1) as nat)
    }
}

/// The unsigned integer that bytes spell, least significant first.
pub open spec fn le_nat(b: Seq<u8>) -> int
    decreases b.len(),
{
    if b.len() == 0 {
        0
    } else {
        b[0] + 256 * le_nat(b.drop_first())
    }
}

/// The `n` bytes that spell `u`, least significant first.
pub open spec fn le_bytes(u: int, n: nat) -> Seq<u8>
    decreases n,
{
    if n == 0 {
        seq![]
    } else {
        seq![(u % 256) as u8] + le_bytes(u / 256, (n - 1) as nat)
    }
}

pub proof fn lemma_byte_range_positive(n: nat)
    ensures
        byte_range(n) >= 1,
    decreases n,
{
    if n > 0 {
        lemma_byte_range_positive((n - 1) as nat);
    }
}

pub proof fn lemma_le_nat_bound(b: Seq<u8>)
    ensures
        0 <= le_nat(b) < byte_range(b.len()),
    decreases b.len(),
{
    if b.len() > 0 {
        lemma_le_nat_bound(b.drop_first());
        let r = le_nat(b.drop_first());
        let m = byte_range(b.drop_first().len());
        assert(b[0] + 256 * r < 256 * m) by (nonlinear_arith)
            requires
                0 <= r < m,
                0 <= b[0] < 256,
        ;
    }
}

pub proof fn lemma_le_round_trip(u: int, n: nat)
    requires
        0 <= u < byte_range(n),
    ensures
        le_bytes(u, n).len() == n,
        le_nat(le_bytes(u, n)) == u,
    decreases n,
{
    if n > 0 {
        let m = byte_range((n - 1) as nat);
        assert(u / 256 < m) by (nonlinear_arith)
            requires
                0 <= u < 256 * m,
        ;
        assert(0 <= u / 256);
        lemma_le_round_trip(u / 256, (n - 1) as nat);
        let b = le_bytes(u, n);
        assert(b.drop_first() =~= le_bytes(u / 256, (n - 1) as nat));
    }
}

/// Reads `w` bytes at `pos` as a little-endian unsigned integer.
pub fn read_uint(data: &[u8], pos: usize, w: usize) -> (r: u128)
    requires
        1 <= w <= 16,
        pos + w <= data@.len(),
    ensures
        r == le_nat(data@.subrange(pos as int, pos + w)),
{
    let len = data.len();
    let mut acc: u128 = 0;
    let mut i: usize = w;
    proof {
        assert(data@.subrange(pos + w, pos + w).len() == 0);
    }
    while i > 0
        invariant
            0 <= i <= w <= 16,
            pos + w <= data@.len() == len,
            acc == le_nat(data@.subrange(pos + i, pos + w)),
            acc < byte_range((w - i) as nat),
        decreases i,
    {
        let ghost s = data@.subrange(pos + i - 1, pos + w);
        proof {
            assert(s.drop_first() =~= data@.subrange(pos + i, pos + w));
            assert(byte_range((w - i + 1) as nat) == 256 * byte_range((w - i) as nat));
            lemma_le_nat_bound(s);
            assert(byte_range((w - i + 1) as nat) <= byte_range(16)) by {
                lemma_byte_range_mono((w - i + 1) as nat, 16);
            }
            assert(byte_range(16) == 0x1_0000_0000_0000_0000_0000_0000_0000_0000) by {
                reveal_with_fuel(byte_range, 17);
            }
            let m = byte_range((w - i) as nat);
            let b = data@[pos + i - 1];
            assert(acc * 256 + b < 256 * m) by (nonlinear_arith)
                requires
                    0 <= acc < m,
                    0 <= b < 256,
            ;
            assert(s[0] == b);
            assert(256 * m <= 0x1_0000_0000_0000_0000_0000_0000_0000_0000);
            assert(acc * 256 + b <= u128::MAX);
        }
        let byte = data[pos + i - 1];
        let shifted = acc * 256;
        acc = shifted + byte as u128;
        i = i - 1;
    }
    acc
}

pub proof fn lemma_byte_range_mono(a: nat, b: nat)
    requires
        a <= b,
    ensures
        byte_range(a) <= byte_range(b),
    decreases b - a,
{
    if a < b {
        lemma_byte_range_mono(a, (b - 1) as nat);
        lemma_byte_range_positive((b - 1) as nat);
    }
}


/// A decoded fixed-width value.
#[derive(Clone, Debug, PartialEq, Eq)]
pub enum Scalar {
    Bool(bool),
    Unsigned(u128),
    Signed(i128),
    PublicKey(Vec<u8>),
}

pub enum ScalarView {
    Bool(bool),
    Unsigned(int),
    Signed(int),
    PublicKey(Seq<u8>),
}

impl View for Scalar {
    type V = ScalarView;

    open spec fn view(&self) -> ScalarView {
        match self {
            Scalar::Bool(b) => ScalarView::Bool(*b),
            Scalar::Unsigned(u) => ScalarView::Unsigned(*u as int),
            Scalar::Signed(x) => ScalarView::Signed(*x as int),
            Scalar::PublicKey(k) => ScalarView::PublicKey(k@),
        }
    }
}

/// The encoded width of a fixed-width type, zero for the others.
pub open spec fn scalar_width(t: IdlType) -> nat {
    match t {
        IdlType::Bool => 1,
        IdlType::U8 => 1,
        IdlType::I8 => 1,
        IdlType::U16 => 2,
        IdlType::I16 => 2,
        IdlType::U32 => 4,
        IdlType::I32 => 4,
        IdlType::U64 => 8,
        IdlType::I64 => 8,
        IdlType::U128 => 16,
        IdlType::I128 => 16,
        IdlType::PublicKey => 32,
        _ => 0,
    }
}

pub open spec fn is_scalar(t: IdlType) -> bool {
    scalar_width(t) > 0
}

pub open spec fn is_signed(t: IdlType) -> bool {
    t is I8 || t is I16 || t is I32 || t is I64 || t is I128
}

pub open spec fn is_unsigned(t: IdlType) -> bool {
    t is U8 || t is U16 || t is U32 || t is U64 || t is U128
}

/// Two's complement reading of `w` bytes that spell `u`.
pub open spec fn signed_of(u: int, w: nat) -> int {
    if u >= byte_range(w) / 2 {
        u - byte_range(w)
    } else {
        u
    }
}

/// The value of type `t` encoded at `pos`, if the bytes hold one.
pub open spec fn dec_scalar(t: IdlType, b: Seq<u8>, pos: int) -> Option<ScalarView> {
    let w = scalar_width(t);
    if pos < 0 || pos + w > b.len() || w == 0 {
        None
    } else {
        let raw = b.subrange(pos, pos + w);
        if t is Bool {
            if raw[0] == 0 {
                Some(ScalarView::Bool(false))
            } else if raw[0] == 1 {
                Some(ScalarView::Bool(true))
            } else {
                None
            }
        } else if t is PublicKey {
            Some(ScalarView::PublicKey(raw))
        } else if is_signed(t) {
            Some(ScalarView::Signed(signed_of(le_nat(raw), w)))
        } else {
            Some(ScalarView::Unsigned(le_nat(raw)))
        }
    }
}

/// Why a payload does not decode.
#[derive(Clone, Copy, Debug, PartialEq, Eq, Structural)]
pub enum DecodeFault {
    /// The bytes end too early, hold a bad tag, or run past the layout.
    TruncatedOrMalformedPayload,
    /// The layout names a type the schema lacks, or nests deeper than
    /// `MAX_DEPTH` levels.
    UnresolvableLayout,
}

/// The encoded width of a fixed-width type, zero for the others.
pub fn width_of(t: &IdlType) -> (r: usize)
    ensures
        r == scalar_width(*t),
{
    match t {
        IdlType::Bool => 1,
        IdlType::U8 => 1,
        IdlType::I8 => 1,
        IdlType::U16 => 2,
        IdlType::I16 => 2,
        IdlType::U32 => 4,
        IdlType::I32 => 4,
        IdlType::U64 => 8,
        IdlType::I64 => 8,
        IdlType::U128 => 16,
        IdlType::I128 => 16,
        IdlType::PublicKey => 32,
        _ => 0,
    }
}

/// Two's complement reading of `w` bytes that spell `u`.
fn signed_from(u: u128, w: usize) -> (r: i128)
    requires
        w == 1 || w == 2 || w == 4 || w == 8 || w == 16,
        u < byte_range(w as nat),
    ensures
        r == signed_of(u as int, w as nat),
{
    proof {
        reveal_with_fuel(byte_range, 17);
    }
    if w == 16 {
        if u >= 0x8000_0000_0000_0000_0000_0000_0000_0000 {
            -((u128::MAX - u) as i128) - 1
        } else {
            u as i128
        }
    } else {
        let range: u128 = if w == 1 {
            0x100
        } else if w == 2 {
            0x1_0000
        } else if w == 4 {
            0x1_0000_0000
        } else {
            0x1_0000_0000_0000_0000
        };
        if u >= range / 2 {
            u as i128 - range as i128
        } else {
            u as i128
        }
    }
}

/// Copies `n` bytes from `pos`.
pub(crate) fn copy_bytes(data: &[u8], pos: usize, n: usize) -> (r: Vec<u8>)
    requires
        pos + n <= data@.len(),
    ensures
        r@ == data@.subrange(pos as int, pos + n),
{
    let len = data.len();
    let mut out: Vec<u8> = Vec::new();
    let mut k: usize = 0;
    while k < n
        invariant
            0 <= k <= n,
            pos + n <= data@.len() == len,
            out@ == data@.subrange(pos as int, pos + k),
        decreases n - k,
    {
        out.push(data[pos + k]);
        proof {
            assert(data@.subrange(pos as int, pos + k + 1) =~= data@.subrange(pos as int, pos + k).push(data@[pos + k]));
        }
        k = k + 1;
    }
    out
}

/// Decodes the value of fixed-width type `t` at `pos`.
pub fn decode_scalar(t: &IdlType, data: &[u8], pos: usize) -> (r: Option<Scalar>)
    ensures
        match r {
            Some(s) => dec_scalar(*t, data@, pos as int) == Some(s@),
            None => dec_scalar(*t, data@, pos as int) is None,
        },
{
    let len = data.len();
    let w = width_of(t);
    if w == 0 || pos > len || w > len - pos {
        return None;
    }
    let ghost raw = data@.subrange(pos as int, pos + w);
    match t {
        IdlType::Bool => {
            let b = data[pos];
            assert(raw[0] == b);
            if b == 0 {
                Some(Scalar::Bool(false))
            } else if b == 1 {
                Some(Scalar::Bool(true))
            } else {
                None
            }
        },
        IdlType::PublicKey => Some(Scalar::PublicKey(copy_bytes(data, pos, w))),
        IdlType::I8 | IdlType::I16 | IdlType::I32 | IdlType::I64 | IdlType::I128 => {
            let u = read_uint(data, pos, w);
            proof {
                lemma_le_nat_bound(raw);
            }
            Some(Scalar::Signed(signed_from(u, w)))
        },
        _ => Some(Scalar::Unsigned(read_uint(data, pos, w))),
    }
}

/// The bytes of a fixed-width value of type `t`.
pub open spec fn enc_scalar(t: IdlType, s: ScalarView) -> Seq<u8> {
    let w = scalar_width(t);
    match s {
        ScalarView::Bool(x) => seq![if x { 1u8 } else { 0u8 }],
        ScalarView::Unsigned(u) => le_bytes(u, w),
        ScalarView::Signed(x) => le_bytes(if x < 0 { x + byte_range(w) } else { x }, w),
        ScalarView::PublicKey(k) => k,
    }
}

/// `s` is a value of fixed-width type `t`.
pub open spec fn scalar_fits(t: IdlType, s: ScalarView) -> bool {
    let w = scalar_width(t);
    match s {
        ScalarView::Bool(_) => t is Bool,
        ScalarView::Unsigned(u) => is_unsigned(t) && 0 <= u < byte_range(w),
        ScalarView::Signed(x) => is_signed(t) && -(byte_range(w) / 2) <= x < byte_range(w) / 2,
        ScalarView::PublicKey(k) => t is PublicKey && k.len() == 32,
    }
}

pub proof fn lemma_enc_scalar_len(t: IdlType, s: ScalarView)
    requires
        scalar_fits(t, s),
    ensures
        enc_scalar(t, s).len() == scalar_width(t),
{
    let w = scalar_width(t);
    reveal_with_fuel(byte_range, 3);
    lemma_byte_range_mono(1, w);
    match s {
        ScalarView::Unsigned(u) => {
            lemma_le_round_trip(u, w);
        },
        ScalarView::Signed(x) => {
            let r = byte_range(w);
            assert(r == 256 * byte_range((w - 1) as nat));
            let u = if x < 0 { x + r } else { x };
            lemma_le_round_trip(u, w);
        },
        _ => {},
    }
}

pub proof fn lemma_scalar_round_trip(t: IdlType, s: ScalarView, b: Seq<u8>, pos: int)
    requires
        scalar_fits(t, s),
        0 <= pos,
        pos + scalar_width(t) <= b.len(),
        b.subrange(pos, pos + scalar_width(t)) == enc_scalar(t, s),
    ensures
        enc_scalar(t, s).len() == scalar_width(t),
        dec_scalar(t, b, pos) == Some(s),
{
    let w = scalar_width(t);
    reveal_with_fuel(byte_range, 3);
    lemma_byte_range_mono(1, w);
    let raw = b.subrange(pos, pos + w);
    match s {
        ScalarView::Bool(x) => {
            assert(raw[0] == enc_scalar(t, s)[0]);
        },
        ScalarView::Unsigned(u) => {
            lemma_le_round_trip(u, w);
        },
        ScalarView::Signed(x) => {
            let r = byte_range(w);
            assert(r == 256 * byte_range((w - 1) as nat));
            let u = if x < 0 { x + r } else { x };
            lemma_le_round_trip(u, w);
        },
        ScalarView::PublicKey(k) => {},
    }
}

} // verus!
