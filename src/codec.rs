//! Byte-level representation of keys and values.
//!
//! A value is stored as a one-byte tag followed by its payload: tag `0` holds a
//! `u64` as eight little-endian bytes, tag `1` a raw blob, tag `2` a serialized
//! blob. Any other tag is read back as a serialized blob, so that newer writers
//! never make older readers fail. Keys are stored as they are: the engine orders
//! raw bytes, and that order is the key order.
use vstd::prelude::*;

verus! {

/// Tag byte of an unsigned 64-bit integer.
pub const TAG_U64: u8 = 0;

/// Tag byte of a raw byte blob.
pub const TAG_BYTES: u8 = 1;

/// Tag byte of a serialized structured value.
pub const TAG_SERIALIZED: u8 = 2;

/// Width in bytes of an encoded `u64` payload.
pub const U64_WIDTH: usize = 8;

/// An application value.
#[derive(Clone, Debug, PartialEq, Eq)]
pub enum Value {
    Unsigned64(u64),
    Bytes(Vec<u8>),
    Serialized(Vec<u8>),
}

/// The mathematical form of a `Value`.
pub ghost enum ValueModel {
    Unsigned64(u64),
    Bytes(Seq<u8>),
    Serialized(Seq<u8>),
}

impl View for Value {
    type V = ValueModel;

    open spec fn view(&self) -> ValueModel {
        match self {
            Value::Unsigned64(n) => ValueModel::Unsigned64(*n),
            Value::Bytes(b) => ValueModel::Bytes(b@),
            Value::Serialized(b) => ValueModel::Serialized(b@),
        }
    }
}

/// Why stored bytes are not a value envelope.
#[derive(Clone, Copy, Debug, PartialEq, Eq, Structural)]
pub enum FormatError {
    /// The envelope holds no tag byte.
    Empty,
    /// The tag announces a `u64`, but the payload has this many bytes, not eight.
    BadU64Width(usize),
}

/// The `k` bytes of `n` in little-endian order (the bytes above `k` dropped).
pub open spec fn le_bytes(n: nat, k: nat) -> Seq<u8>
    decreases k,
{
    if k == 0 {
        Seq::empty()
    } else {
        seq![(n % 256) as u8].add(le_bytes(n / 256, (k - 1) as nat))
    }
}

/// The number that the bytes `s` spell in little-endian order.
pub open spec fn le_number(s: Seq<u8>) -> nat
    decreases s.len(),
{
    if s.len() == 0 {
        0
    } else {
        s[0] as nat + 256 * le_number(s.drop_first())
    }
}

/// `256` to the power `k`.
pub open spec fn pow256(k: nat) -> nat
    decreases k,
{
    if k == 0 {
        1
    } else {
        256 * pow256((k - 1) as nat)
    }
}

/// The envelope that stores a value.
pub open spec fn encode_spec(v: ValueModel) -> Seq<u8> {
    match v {
        ValueModel::Unsigned64(n) => seq![TAG_U64].add(le_bytes(n as nat, 8)),
        ValueModel::Bytes(b) => seq![TAG_BYTES].add(b),
        ValueModel::Serialized(b) => seq![TAG_SERIALIZED].add(b),
    }
}

/// What an envelope reads back as.
pub open spec fn decode_spec(s: Seq<u8>) -> Result<ValueModel, FormatError> {
    if s.len() == 0 {
        Err(FormatError::Empty)
    } else if s[0] == TAG_U64 {
        if s.len() == 9 {
            Ok(ValueModel::Unsigned64(le_number(s.drop_first()) as u64))
        } else {
            Err(FormatError::BadU64Width((s.len() - 1) as usize))
        }
    } else if s[0] == TAG_BYTES {
        Ok(ValueModel::Bytes(s.drop_first()))
    } else {
        Ok(ValueModel::Serialized(s.drop_first()))
    }
}

/// The stored form of a key: the key's own bytes.
pub open spec fn key_encoding(k: Seq<u8>) -> Seq<u8> {
    k
}

/// The byte-wise lexicographic order of keys, the engine's own order.
pub open spec fn key_lt(a: Seq<u8>, b: Seq<u8>) -> bool
    decreases a.len(),
{
    if a.len() == 0 {
        b.len() > 0
    } else if b.len() == 0 {
        false
    } else if a[0] != b[0] {
        a[0] < b[0]
    } else {
        key_lt(a.drop_first(), b.drop_first())
    }
}

proof fn lemma_le_number_bound(s: Seq<u8>)
    ensures
        le_number(s) < pow256(s.len()),
    decreases s.len(),
{
    if s.len() > 0 {
        lemma_le_number_bound(s.drop_first());
        let r = le_number(s.drop_first());
        let p = pow256((s.len() - 1) as nat);
        assert(s[0] as nat + 256 * r < 256 * p) by (nonlinear_arith)
            requires
                r < p,
                s[0] as nat <= 255,
        ;
    }
}

proof fn lemma_le_round_trip(n: nat, k: nat)
    requires
        n < pow256(k),
    ensures
        le_bytes(n, k).len() == k,
        le_number(le_bytes(n, k)) == n,
    decreases k,
{
    if k > 0 {
        let p = pow256((k - 1) as nat);
        assert(n / 256 < p) by (nonlinear_arith)
            requires
                n < 256 * p,
        ;
        lemma_le_round_trip(n / 256, (k - 1) as nat);
        let s = le_bytes(n, k);
        assert(s.drop_first() =~= le_bytes(n / 256, (k - 1) as nat));
        assert(n == n % 256 + 256 * (n / 256)) by (nonlinear_arith);
    }
}

proof fn lemma_pow256_8()
    ensures
        pow256(8) == 0x1_0000_0000_0000_0000,
{
    reveal_with_fuel(pow256, 9);
}

/// Stores a key: a copy of its bytes.
pub fn encode_key(key: &[u8]) -> (r: Vec<u8>)
    ensures
        r@ == key_encoding(key@),
{
    copy_bytes(key)
}

/// Reads a stored key back: a copy of its bytes.
pub fn decode_key(bytes: &[u8]) -> (r: Vec<u8>)
    ensures
        r@ == bytes@,
{
    copy_bytes(bytes)
}

pub(crate) fn copy_bytes(s: &[u8]) -> (r: Vec<u8>)
    ensures
        r@ == s@,
{
    let r = copy_from(s, 0);
    assert(s@.subrange(0, s@.len() as int) =~= s@);
    r
}

/// A copy of the bytes of `s` from index `start` on.
fn copy_from(s: &[u8], start: usize) -> (r: Vec<u8>)
    requires
        start <= s@.len(),
    ensures
        r@ == s@.subrange(start as int, s@.len() as int),
{
    let mut r: Vec<u8> = Vec::with_capacity(s.len() - start);
    let mut i: usize = start;
    while i < s.len()
        invariant
            start <= i <= s@.len(),
            r@ == s@.subrange(start as int, i as int),
        decreases s@.len() - i,
    {
        r.push(s[i]);
        i = i + 1;
        assert(r@ =~= s@.subrange(start as int, i as int));
    }
    r
}

proof fn lemma_pow256_mono(a: nat, b: nat)
    requires
        a <= b,
    ensures
        pow256(a) <= pow256(b),
    decreases b,
{
    if a < b {
        lemma_pow256_mono(a, (b - 1) as nat);
    }
}

/// Reads the eight little-endian bytes of `s` that start at `off`.
fn read_u64_le(s: &[u8], off: usize) -> (r: u64)
    requires
        off + 8 == s@.len(),
    ensures
        r as nat == le_number(s@.subrange(off as int, s@.len() as int)),
{
    let ghost end = s@.len() as int;
    let mut acc: u64 = 0;
    let mut i: usize = s.len();
    assert(s@.subrange(end, end).len() == 0);
    while i > off
        invariant
            off <= i <= s@.len(),
            off + 8 == s@.len(),
            end == s@.len(),
            acc as nat == le_number(s@.subrange(i as int, end)),
        decreases i,
    {
        i = i - 1;
        let ghost t = s@.subrange(i as int, end);
        assert(t.drop_first() =~= s@.subrange(i + 1, end));
        proof {
            lemma_le_number_bound(t);
            lemma_pow256_mono(t.len(), 8);
            lemma_pow256_8();
        }
        acc = acc * 256 + s[i] as u64;
    }
    acc
}

/// Reads an envelope back into the value it stores.
pub fn decode_value(bytes: &[u8]) -> (r: Result<Value, FormatError>)
    ensures
        match r {
            Ok(v) => decode_spec(bytes@) == Ok::<ValueModel, FormatError>(v@),
            Err(e) => decode_spec(bytes@) == Err::<ValueModel, FormatError>(e),
        },
{
    if bytes.len() == 0 {
        return Err(FormatError::Empty);
    }
    let tag = bytes[0];
    let ghost payload = bytes@.subrange(1, bytes@.len() as int);
    assert(payload =~= bytes@.drop_first());
    if tag == TAG_U64 {
        if bytes.len() != U64_WIDTH + 1 {
            return Err(FormatError::BadU64Width(bytes.len() - 1));
        }
        let n = read_u64_le(bytes, 1);
        Ok(Value::Unsigned64(n))
    } else if tag == TAG_BYTES {
        Ok(Value::Bytes(copy_from(bytes, 1)))
    } else {
        Ok(Value::Serialized(copy_from(bytes, 1)))
    }
}

/// Appends the eight little-endian bytes of `n` to `out`.
fn push_u64_le(out: &mut Vec<u8>, n: u64)
    ensures
        final(out)@ == old(out)@.add(le_bytes(n as nat, 8)),
{
    let mut x: u64 = n;
    let mut i: usize = 0;
    while i < U64_WIDTH
        invariant
            i <= 8,
            out@.add(le_bytes(x as nat, (8 - i) as nat)) == old(out)@.add(le_bytes(n as nat, 8)),
        decreases 8 - i,
    {
        let ghost before = out@;
        let ghost k = (8 - i - 1) as nat;
        assert(le_bytes(x as nat, k + 1) == seq![(x as nat % 256) as u8].add(
            le_bytes(x as nat / 256, k),
        ));
        out.push((x % 256) as u8);
        x = x / 256;
        i = i + 1;
        assert(out@.add(le_bytes(x as nat, k)) =~= before.add(
            seq![out@.last()].add(le_bytes(x as nat, k)),
        ));
    }
    assert(le_bytes(x as nat, 0) =~= Seq::<u8>::empty());
    assert(out@ =~= out@.add(le_bytes(x as nat, 0)));
}

/// Builds the envelope that stores `v`.
pub fn encode_value(v: &Value) -> (r: Vec<u8>)
    ensures
        r@ == encode_spec(v@),
{
    let mut r: Vec<u8> = Vec::new();
    match v {
        Value::Unsigned64(n) => {
            r.push(TAG_U64);
            push_u64_le(&mut r, *n);
        },
        Value::Bytes(b) => {
            r.push(TAG_BYTES);
            let mut c = copy_bytes(b.as_slice());
            r.append(&mut c);
        },
        Value::Serialized(b) => {
            r.push(TAG_SERIALIZED);
            let mut c = copy_bytes(b.as_slice());
            r.append(&mut c);
        },
    }
    assert(r@ =~= encode_spec(v@));
    r
}

/// Every value reads back from its envelope as itself, blobs of any length
/// (the empty one too) and every `u64` alike.
pub proof fn lemma_value_round_trip(v: ValueModel)
    ensures
        decode_spec(encode_spec(v)) == Ok::<ValueModel, FormatError>(v),
{
    let e = encode_spec(v);
    match v {
        ValueModel::Unsigned64(n) => {
            lemma_pow256_8();
            lemma_le_round_trip(n as nat, 8);
            assert(e.drop_first() =~= le_bytes(n as nat, 8));
        },
        ValueModel::Bytes(b) => {
            assert(e.drop_first() =~= b);
        },
        ValueModel::Serialized(b) => {
            assert(e.drop_first() =~= b);
        },
    }
}

/// A key reads back from its stored form as itself.
pub proof fn lemma_key_round_trip(k: Seq<u8>)
    ensures
        key_encoding(k) == k,
{
}

/// Storing keys keeps their order: one key comes before another exactly when
/// its stored form comes before the other's.
pub proof fn lemma_key_order_kept(a: Seq<u8>, b: Seq<u8>)
    ensures
        key_lt(key_encoding(a), key_encoding(b)) == key_lt(a, b),
{
}

/// An envelope whose tag is not one of the known ones reads back as a
/// serialized blob of the bytes after the tag, never as an error.
pub proof fn lemma_unknown_tag_is_serialized(s: Seq<u8>)
    requires
        s.len() > 0,
        s[0] != TAG_U64,
        s[0] != TAG_BYTES,
    ensures
        decode_spec(s) == Ok::<ValueModel, FormatError>(ValueModel::Serialized(s.drop_first())),
{
}

/// An envelope tagged as a `u64` whose payload is not eight bytes long is a
/// format error that names the payload's length.
pub proof fn lemma_bad_u64_width(s: Seq<u8>)
    requires
        s.len() > 0,
        s[0] == TAG_U64,
        s.len() != 9,
    ensures
        decode_spec(s) == Err::<ValueModel, FormatError>(FormatError::BadU64Width((s.len() - 1) as usize)),
{
}

} // verus!
