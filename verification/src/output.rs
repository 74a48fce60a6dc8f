use vstd::prelude::*;
use crate::errors::CompilerError;
use crate::field::FIELD_PRIME;
use crate::value::{
    valid_width, width_bound, width_bound_exec, BoolValue, ConstrainedValue, FieldValue,
    GroupValue, IntValue, is_data_value,
};

verus! {

/// The little-endian bytes of the low `count * 8` bits of a value.
pub open spec fn le_bytes(v: int, count: nat) -> Seq<u8>
    decreases count,
{
    if count == 0 {
        Seq::empty()
    } else {
        seq![(v % 256) as u8] + le_bytes(v / 256, (count - 1) as nat)
    }
}

/// The value read back from little-endian bytes.
pub open spec fn from_le(s: Seq<u8>) -> int
    decreases s.len(),
{
    if s.len() == 0 {
        0
    } else {
        s[0] + 256 * from_le(s.skip(1))
    }
}

/// Writing the value read from bytes gives the bytes back.
pub proof fn lemma_le_bytes_of_from_le(s: Seq<u8>)
    ensures
        le_bytes(from_le(s), s.len()) == s,
    decreases s.len(),
{
    if s.len() > 0 {
        let v = from_le(s);
        assert(0 <= from_le(s.skip(1))) by {
            lemma_from_le_bounds(s.skip(1));
        }
        assert(v % 256 == s[0] && v / 256 == from_le(s.skip(1))) by {
            vstd::arithmetic::div_mod::lemma_fundamental_div_mod_converse(
                v,
                256,
                from_le(s.skip(1)),
                s[0] as int,
            );
        }
        lemma_le_bytes_of_from_le(s.skip(1));
        assert(le_bytes(v, s.len()) =~= s);
    }
}

/// The value read from bytes is non-negative.
pub proof fn lemma_from_le_bounds(s: Seq<u8>)
    ensures
        0 <= from_le(s),
    decreases s.len(),
{
    if s.len() > 0 {
        lemma_from_le_bounds(s.skip(1));
    }
}

/// Little-endian byte strings have exactly the requested count.
proof fn lemma_le_bytes_len(v: int, count: nat)
    ensures
        le_bytes(v, count).len() == count,
    decreases count,
{
    if count > 0 {
        lemma_le_bytes_len(v / 256, (count - 1) as nat);
    }
}

/// 256 to the eighth power, spelled out for the round-trip bound.
proof fn lemma_pow8_256()
    ensures
        vstd::arithmetic::power::pow(256, 8) == 0x10000000000000000,
{
    vstd::arithmetic::power::lemma_pow_adds(256, 4, 4);
    vstd::arithmetic::power::lemma_pow_adds(256, 2, 2);
    vstd::arithmetic::power::lemma_pow_adds(256, 1, 1);
    vstd::arithmetic::power::lemma_pow1(256);
    assert(256int * 256 == 65536) by (nonlinear_arith);
    assert(65536int * 65536 == 0x100000000) by (nonlinear_arith);
    assert(0x100000000int * 0x100000000 == 0x10000000000000000) by (nonlinear_arith);
}

/// Reading the written bytes gives the value back.
proof fn lemma_le_round_trip(v: int, count: nat)
    requires
        0 <= v < vstd::arithmetic::power::pow(256, count),
    ensures
        from_le(le_bytes(v, count)) == v,
    decreases count,
{
    if count == 0 {
        vstd::arithmetic::power::lemma_pow0(256);
    } else {
        vstd::arithmetic::power::lemma_pow_adds(256, 1, (count - 1) as nat);
        vstd::arithmetic::power::lemma_pow1(256);
        vstd::arithmetic::div_mod::lemma_div_pos_is_pos(v, 256);
        assert(v / 256 < vstd::arithmetic::power::pow(256, (count - 1) as nat)) by {
            vstd::arithmetic::div_mod::lemma_multiply_divide_lt(
                v,
                256,
                vstd::arithmetic::power::pow(256, (count - 1) as nat),
            );
        }
        lemma_le_round_trip(v / 256, (count - 1) as nat);
        let s = le_bytes(v, count);
        assert(s.skip(1) =~= le_bytes(v / 256, (count - 1) as nat));
        vstd::arithmetic::div_mod::lemma_fundamental_div_mod(v, 256);
    }
}

/// Reading the written bytes of a machine word gives the word back.
proof fn lemma_le_round_trip_u64(v: u64)
    ensures
        from_le(le_bytes(v as int, 8)) == v,
{
    lemma_pow8_256();
    lemma_le_round_trip(v as int, 8);
}

/// Appends the eight little-endian bytes of a machine word.
fn push_u64(out: &mut Vec<u8>, v: u64)
    ensures
        final(out)@ == old(out)@ + le_bytes(v as int, 8),
{
    let mut x = v;
    let ghost start = out@;
    let mut k: usize = 0;
    while k < 8
        invariant
            0 <= k <= 8,
            out@.len() == start.len() + k,
            forall|j: int| 0 <= j < start.len() ==> out@[j] == start[j],
            le_bytes(v as int, 8) =~= out@.skip(start.len() as int) + le_bytes(
                x as int,
                (8 - k) as nat,
            ),
        decreases 8 - k,
    {
        let b = (x % 256) as u8;
        let ghost pre = out@;
        let ghost xpre = x as int;
        out.push(b);
        x = x / 256;
        proof {
            assert(le_bytes(xpre, (8 - k) as nat) =~= seq![b] + le_bytes(
                x as int,
                (8 - (k + 1)) as nat,
            ));
            assert(out@.skip(start.len() as int) =~= pre.skip(start.len() as int) + seq![b]);
            assert(le_bytes(v as int, 8) =~= out@.skip(start.len() as int) + le_bytes(
                x as int,
                (8 - (k + 1)) as nat,
            ));
        }
        k = k + 1;
    }
    proof {
        assert(le_bytes(x as int, 0) =~= Seq::<u8>::empty());
        assert(out@ =~= start + le_bytes(v as int, 8));
    }
}

/// Reads back one machine word written by `push_u64`.
fn read_u64(bytes: &Vec<u8>, pos: usize) -> (r: u64)
    requires
        pos + 8 <= bytes@.len(),
        0 <= from_le(bytes@.subrange(pos as int, pos as int + 8)) <= u64::MAX,
    ensures
        r == from_le(bytes@.subrange(pos as int, pos as int + 8)),
{
    let blen = bytes.len();
    let ghost whole = bytes@.subrange(pos as int, pos as int + 8);
    proof {
        lemma_split_at_k(whole, 8);
        assert(whole.subrange(0, 8) =~= whole);
        assert(whole.skip(8) =~= Seq::<u8>::empty());
    }
    let mut acc: u64 = 0;
    let mut k: usize = 8;
    while k > 0
        invariant
            0 <= k <= 8,
            blen == bytes@.len(),
            pos + 8 <= blen,
            whole == bytes@.subrange(pos as int, pos as int + 8),
            0 <= from_le(whole) <= u64::MAX,
            acc == from_le(whole.skip(k as int)),
            from_le(whole) == from_le(whole.subrange(0, k as int)) + vstd::arithmetic::power::pow(
                256,
                k as nat,
            ) * from_le(whole.skip(k as int)),
        decreases k,
    {
        k = k - 1;
        let b = bytes[pos + k];
        proof {
            assert(whole.skip(k as int)[0] == whole[k as int]);
            assert(whole.skip(k as int).skip(1) =~= whole.skip(k as int + 1));
            assert(whole[k as int] == bytes@[pos + k]);
            lemma_split_at_k(whole, k as int);
            lemma_from_le_bounds(whole.skip(k as int));
            lemma_from_le_bounds(whole.subrange(0, k as int));
            let p = vstd::arithmetic::power::pow(256, k as nat);
            vstd::arithmetic::power::lemma_pow_positive(256, k as nat);
            let hi_v = from_le(whole.skip(k as int));
            assert(hi_v <= p * hi_v) by (nonlinear_arith)
                requires
                    p >= 1,
                    hi_v >= 0,
            ;
            assert(hi_v <= u64::MAX);
            assert(b as int + 256 * (acc as int) == from_le(whole.skip(k as int)));
        }
        acc = b as u64 + 256 * acc;
    }
    proof {
        assert(whole.skip(0) =~= whole);
    }
    acc
}

/// Splitting little-endian bytes at any position splits the value into a low
/// part and a scaled high part.
proof fn lemma_split_at_k(s: Seq<u8>, k: int)
    requires
        0 <= k <= s.len(),
    ensures
        from_le(s) == from_le(s.subrange(0, k)) + vstd::arithmetic::power::pow(256, k as nat)
            * from_le(s.skip(k)),
    decreases k,
{
    if k == 0 {
        assert(s.subrange(0, 0) =~= Seq::<u8>::empty());
        assert(s.skip(0) =~= s);
        vstd::arithmetic::power::lemma_pow0(256);
    } else {
        assert(s.len() > 0);
        lemma_split_at_k(s.skip(1), k - 1);
        assert(s.skip(1).subrange(0, k - 1) =~= s.subrange(0, k).skip(1));
        assert(s.skip(1).skip(k - 1) =~= s.skip(k));
        assert(s.subrange(0, k)[0] == s[0]);
        vstd::arithmetic::power::lemma_pow_adds(256, 1, (k - 1) as nat);
        vstd::arithmetic::power::lemma_pow1(256);
        let p1 = vstd::arithmetic::power::pow(256, (k - 1) as nat);
        assert(from_le(s) == s[0] + 256 * (from_le(s.subrange(0, k).skip(1)) + p1 * from_le(
            s.skip(k),
        )));
        assert(256 * (from_le(s.subrange(0, k).skip(1)) + p1 * from_le(s.skip(k))) == 256
            * from_le(s.subrange(0, k).skip(1)) + (256 * p1) * from_le(s.skip(k)))
            by (nonlinear_arith);
    }
}


/// Values that can be serialized into output bytes: primitives, arrays and
/// tuples of them.
pub open spec fn encodable(v: ConstrainedValue) -> bool
    decreases v,
{
    match v {
        ConstrainedValue::Boolean(_) => true,
        ConstrainedValue::FieldElement(_) => true,
        ConstrainedValue::Integer(_) => true,
        ConstrainedValue::Group(_) => true,
        ConstrainedValue::Array(elements) => forall|i: int|
            0 <= i < elements@.len() ==> encodable(#[trigger] elements@[i]),
        ConstrainedValue::Tuple(elements) => forall|i: int|
            0 <= i < elements@.len() ==> encodable(#[trigger] elements@[i]),
        _ => false,
    }
}

/// A value without constraint-system bindings, as decoding produces.
pub open spec fn unbound_value(v: ConstrainedValue) -> bool
    decreases v,
{
    match v {
        ConstrainedValue::Boolean(b) => b.variable is None,
        ConstrainedValue::FieldElement(f) => f.variable is None,
        ConstrainedValue::Integer(n) => n.variable is None,
        ConstrainedValue::Group(g) => g.x.variable is None && g.y.variable is None,
        ConstrainedValue::Array(elements) => forall|i: int|
            0 <= i < elements@.len() ==> unbound_value(#[trigger] elements@[i]),
        ConstrainedValue::Tuple(elements) => forall|i: int|
            0 <= i < elements@.len() ==> unbound_value(#[trigger] elements@[i]),
        _ => true,
    }
}

/// The serialized encoding of a value: a tag byte, then the payload.
pub open spec fn value_bytes(v: ConstrainedValue) -> Seq<u8>
    decreases v, 1nat,
{
    match v {
        ConstrainedValue::Boolean(b) => seq![0u8, if b.value { 1u8 } else { 0u8 }],
        ConstrainedValue::Integer(n) => seq![1u8, n.width as u8] + le_bytes(n.value as int, 8),
        ConstrainedValue::FieldElement(f) => seq![2u8] + le_bytes(f.value as int, 8),
        ConstrainedValue::Group(g) => seq![3u8] + le_bytes(g.x.value as int, 8) + le_bytes(
            g.y.value as int,
            8,
        ),
        ConstrainedValue::Array(elements) => seq![4u8] + le_bytes(elements@.len() as int, 8)
            + values_bytes(elements@),
        ConstrainedValue::Tuple(elements) => seq![5u8] + le_bytes(elements@.len() as int, 8)
            + values_bytes(elements@),
        _ => Seq::empty(),
    }
}

/// The concatenated encodings of a sequence of values.
pub open spec fn values_bytes(vs: Seq<ConstrainedValue>) -> Seq<u8>
    decreases vs, 0nat,
{
    if vs.len() == 0 {
        Seq::empty()
    } else {
        value_bytes(vs[0]) + values_bytes(vs.skip(1))
    }
}

/// Appending one value appends its encoding.
proof fn lemma_values_bytes_push(vs: Seq<ConstrainedValue>, x: ConstrainedValue)
    ensures
        values_bytes(vs.push(x)) == values_bytes(vs) + value_bytes(x),
    decreases vs.len(),
{
    reveal_with_fuel(values_bytes, 3);
    if vs.len() == 0 {
        assert(vs.push(x)[0] == x);
        assert(vs.push(x).skip(1) =~= Seq::<ConstrainedValue>::empty());
        assert(values_bytes(vs) =~= Seq::<u8>::empty());
        assert(values_bytes(vs.push(x)) =~= values_bytes(vs) + value_bytes(x));
    } else {
        assert(vs.push(x)[0] == vs[0]);
        assert(vs.push(x).skip(1) =~= vs.skip(1).push(x));
        lemma_values_bytes_push(vs.skip(1), x);
        assert(values_bytes(vs.push(x)) =~= values_bytes(vs) + value_bytes(x));
    }
}

/// Serializes one value onto the end of a byte buffer.
#[verifier::loop_isolation(false)]
fn encode_value(v: &ConstrainedValue, out: &mut Vec<u8>) -> (r: Result<(), CompilerError>)
    ensures
        match r {
            Ok(()) => encodable(*v) && final(out)@ == old(out)@ + value_bytes(*v),
            Err(e) => !encodable(*v) && (e matches CompilerError::UnsupportedOperation(_)),
        },
    decreases *v,
{
    match v {
        ConstrainedValue::Boolean(b) => {
            out.push(0u8);
            out.push(if b.value { 1u8 } else { 0u8 });
            proof {
                assert(out@ =~= old(out)@ + value_bytes(*v));
            }
            Ok(())
        },
        ConstrainedValue::Integer(n) => {
            out.push(1u8);
            out.push(#[verifier::truncate] (n.width as u8));
            push_u64(out, n.value);
            proof {
                assert(out@ =~= old(out)@ + value_bytes(*v));
            }
            Ok(())
        },
        ConstrainedValue::FieldElement(f) => {
            out.push(2u8);
            push_u64(out, f.value);
            proof {
                assert(out@ =~= old(out)@ + value_bytes(*v));
            }
            Ok(())
        },
        ConstrainedValue::Group(g) => {
            out.push(3u8);
            push_u64(out, g.x.value);
            push_u64(out, g.y.value);
            proof {
                assert(out@ =~= old(out)@ + value_bytes(*v));
            }
            Ok(())
        },
        ConstrainedValue::Array(elements) => {
            out.push(4u8);
            push_u64(out, elements.len() as u64);
            let ghost base = out@;
            let n = elements.len();
            let mut i: usize = 0;
            while i < n
                invariant
                    0 <= i <= n,
                    out@ =~= base + values_bytes(elements@.subrange(0, i as int)),
                    forall|j: int| 0 <= j < i ==> encodable(#[trigger] elements@[j]),
                decreases n - i,
            {
                proof {
                    assert(decreases_to!(*v => elements@[i as int]));
                }
                match encode_value(&elements[i], out) {
                    Ok(()) => {},
                    Err(e) => {
                        return Err(e);
                    },
                }
                proof {
                    lemma_values_bytes_push(elements@.subrange(0, i as int), elements@[i as int]);
                    assert(elements@.subrange(0, i as int).push(elements@[i as int]) =~= elements@
                        .subrange(0, i as int + 1));
                }
                i = i + 1;
            }
            proof {
                assert(elements@.subrange(0, n as int) =~= elements@);
                assert(out@ =~= old(out)@ + value_bytes(*v));
            }
            Ok(())
        },
        ConstrainedValue::Tuple(elements) => {
            out.push(5u8);
            push_u64(out, elements.len() as u64);
            let ghost base = out@;
            let n = elements.len();
            let mut i: usize = 0;
            while i < n
                invariant
                    0 <= i <= n,
                    out@ =~= base + values_bytes(elements@.subrange(0, i as int)),
                    forall|j: int| 0 <= j < i ==> encodable(#[trigger] elements@[j]),
                decreases n - i,
            {
                proof {
                    assert(decreases_to!(*v => elements@[i as int]));
                }
                match encode_value(&elements[i], out) {
                    Ok(()) => {},
                    Err(e) => {
                        return Err(e);
                    },
                }
                proof {
                    lemma_values_bytes_push(elements@.subrange(0, i as int), elements@[i as int]);
                    assert(elements@.subrange(0, i as int).push(elements@[i as int]) =~= elements@
                        .subrange(0, i as int + 1));
                }
                i = i + 1;
            }
            proof {
                assert(elements@.subrange(0, n as int) =~= elements@);
                assert(out@ =~= old(out)@ + value_bytes(*v));
            }
            Ok(())
        },
        ConstrainedValue::Function(_, _) => Err(
            CompilerError::UnsupportedOperation(crate::value::kind_label(v)),
        ),
        ConstrainedValue::CircuitDefinition(_, _) => Err(
            CompilerError::UnsupportedOperation(crate::value::kind_label(v)),
        ),
        ConstrainedValue::CircuitInstance(_, _) => Err(
            CompilerError::UnsupportedOperation(crate::value::kind_label(v)),
        ),
    }
}

/// A primitive value with canonical payloads and no binding: exactly what
/// decoding a primitive encoding can produce.
pub open spec fn canonical_primitive(v: ConstrainedValue) -> bool {
    match v {
        ConstrainedValue::Boolean(b) => b.variable is None,
        ConstrainedValue::Integer(n) => n.variable is None && valid_width(n.width) && (
        n.value as int) < width_bound(n.width),
        ConstrainedValue::FieldElement(f) => f.variable is None && f.value < FIELD_PRIME,
        ConstrainedValue::Group(g) => g.x.variable is None && g.y.variable is None && g.x.value
            < FIELD_PRIME && g.y.value < FIELD_PRIME,
        _ => false,
    }
}

/// The first byte of an encoding names its variant, and a primitive
/// encoding's length is fixed by that byte.
proof fn lemma_value_bytes_shape(v: ConstrainedValue)
    requires
        encodable(v),
    ensures
        value_bytes(v).len() >= 2,
        v matches ConstrainedValue::Boolean(b) ==> value_bytes(v).len() == 2 && value_bytes(v)[0]
            == 0u8 && value_bytes(v)[1] == (if b.value { 1u8 } else { 0u8 }),
        v matches ConstrainedValue::Integer(n) ==> value_bytes(v).len() == 10 && value_bytes(
            v,
        )[0] == 1u8 && value_bytes(v)[1] == (n.width as u8) && value_bytes(v).subrange(2, 10)
            == le_bytes(n.value as int, 8),
        v matches ConstrainedValue::FieldElement(f) ==> value_bytes(v).len() == 9 && value_bytes(
            v,
        )[0] == 2u8 && value_bytes(v).subrange(1, 9) == le_bytes(f.value as int, 8),
        v matches ConstrainedValue::Group(g) ==> value_bytes(v).len() == 17 && value_bytes(v)[0]
            == 3u8 && value_bytes(v).subrange(1, 9) == le_bytes(g.x.value as int, 8)
            && value_bytes(v).subrange(9, 17) == le_bytes(g.y.value as int, 8),
        v is Array ==> value_bytes(v)[0] == 4u8 && value_bytes(v).len() >= 9,
        v is Tuple ==> value_bytes(v)[0] == 5u8 && value_bytes(v).len() >= 9,
{
    match v {
        ConstrainedValue::Boolean(_) => {},
        ConstrainedValue::Integer(n) => {
            lemma_le_bytes_len(n.value as int, 8);
            assert(value_bytes(v).subrange(2, 10) =~= le_bytes(n.value as int, 8));
        },
        ConstrainedValue::FieldElement(f) => {
            lemma_le_bytes_len(f.value as int, 8);
            assert(value_bytes(v).subrange(1, 9) =~= le_bytes(f.value as int, 8));
        },
        ConstrainedValue::Group(g) => {
            lemma_le_bytes_len(g.x.value as int, 8);
            lemma_le_bytes_len(g.y.value as int, 8);
            assert(value_bytes(v).subrange(1, 9) =~= le_bytes(g.x.value as int, 8));
            assert(value_bytes(v).subrange(9, 17) =~= le_bytes(g.y.value as int, 8));
        },
        ConstrainedValue::Array(elements) => {
            lemma_le_bytes_len(elements@.len() as int, 8);
        },
        ConstrainedValue::Tuple(elements) => {
            lemma_le_bytes_len(elements@.len() as int, 8);
        },
        _ => {},
    }
}

/// Law: a canonical primitive value is uniquely determined by its encoding,
/// so decoding the bytes of such a value can yield nothing but the value.
pub proof fn lemma_primitive_encoding_injective(v1: ConstrainedValue, v2: ConstrainedValue)
    requires
        canonical_primitive(v1),
        canonical_primitive(v2),
        value_bytes(v1) == value_bytes(v2),
    ensures
        v1 == v2,
{
    lemma_value_bytes_shape(v1);
    lemma_value_bytes_shape(v2);
    match (v1, v2) {
        (ConstrainedValue::Boolean(a), ConstrainedValue::Boolean(b)) => {
            assert(value_bytes(v1)[1] == value_bytes(v2)[1]);
        },
        (ConstrainedValue::Integer(a), ConstrainedValue::Integer(b)) => {
            assert(value_bytes(v1)[1] == value_bytes(v2)[1]);
            assert((a.width as u8) as u32 == a.width);
            assert((b.width as u8) as u32 == b.width);
            assert(value_bytes(v1).subrange(2, 10) == value_bytes(v2).subrange(2, 10));
            lemma_le_round_trip_u64(a.value);
            lemma_le_round_trip_u64(b.value);
        },
        (ConstrainedValue::FieldElement(a), ConstrainedValue::FieldElement(b)) => {
            assert(value_bytes(v1).subrange(1, 9) == value_bytes(v2).subrange(1, 9));
            lemma_le_round_trip_u64(a.value);
            lemma_le_round_trip_u64(b.value);
        },
        (ConstrainedValue::Group(a), ConstrainedValue::Group(b)) => {
            assert(value_bytes(v1).subrange(1, 9) == value_bytes(v2).subrange(1, 9));
            assert(value_bytes(v1).subrange(9, 17) == value_bytes(v2).subrange(9, 17));
            lemma_le_round_trip_u64(a.x.value);
            lemma_le_round_trip_u64(b.x.value);
            lemma_le_round_trip_u64(a.y.value);
            lemma_le_round_trip_u64(b.y.value);
        },
        _ => {
            assert(value_bytes(v1)[0] == value_bytes(v2)[0]);
        },
    }
}

/// What any canonical-primitive encoding starting at `pos` forces on the
/// bytes; each early refusal of the decoder contradicts one of these facts.
proof fn lemma_primitive_witness(bytes: Seq<u8>, pos: int)
    requires
        0 <= pos,
        exists|v: ConstrainedValue, end: int|
            canonical_primitive(v) && pos <= end <= bytes.len() && value_bytes(v)
                == bytes.subrange(pos, end),
    ensures
        pos + 2 <= bytes.len(),
        bytes[pos] == 0 || bytes[pos] == 1 || bytes[pos] == 2 || bytes[pos] == 3,
        bytes[pos] == 0 ==> (bytes[pos + 1] == 0 || bytes[pos + 1] == 1),
        bytes[pos] == 1 ==> pos + 10 <= bytes.len() && (bytes[pos + 1] == 8 || bytes[pos + 1]
            == 16 || bytes[pos + 1] == 32) && from_le(bytes.subrange(pos + 2, pos + 10))
            < width_bound(bytes[pos + 1] as u32),
        bytes[pos] == 2 ==> pos + 9 <= bytes.len() && from_le(bytes.subrange(pos + 1, pos + 9))
            < FIELD_PRIME,
        bytes[pos] == 3 ==> pos + 17 <= bytes.len() && from_le(bytes.subrange(pos + 1, pos + 9))
            < FIELD_PRIME && from_le(bytes.subrange(pos + 9, pos + 17)) < FIELD_PRIME,
{
    let (v, end) = choose|v: ConstrainedValue, end: int|
        canonical_primitive(v) && pos <= end <= bytes.len() && value_bytes(v) == bytes.subrange(
            pos,
            end,
        );
    lemma_value_bytes_shape(v);
    assert(value_bytes(v)[0] == bytes[pos]);
    match v {
        ConstrainedValue::Boolean(_) => {
            assert(value_bytes(v)[1] == bytes[pos + 1]);
        },
        ConstrainedValue::Integer(n) => {
            assert(end == pos + 10);
            assert(value_bytes(v)[1] == bytes[pos + 1]);
            assert((n.width as u8) as u32 == n.width);
            assert(value_bytes(v).subrange(2, 10) =~= bytes.subrange(pos + 2, pos + 10));
            lemma_le_round_trip_u64(n.value);
        },
        ConstrainedValue::FieldElement(f) => {
            assert(end == pos + 9);
            assert(value_bytes(v).subrange(1, 9) =~= bytes.subrange(pos + 1, pos + 9));
            lemma_le_round_trip_u64(f.value);
        },
        ConstrainedValue::Group(g) => {
            assert(end == pos + 17);
            assert(value_bytes(v).subrange(1, 9) =~= bytes.subrange(pos + 1, pos + 9));
            assert(value_bytes(v).subrange(9, 17) =~= bytes.subrange(pos + 9, pos + 17));
            lemma_le_round_trip_u64(g.x.value);
            lemma_le_round_trip_u64(g.y.value);
        },
        _ => {},
    }
}

/// The serialized encoding of an entry function's return value, structurally
/// decodable back into an unbound value of the same shape.
#[derive(Debug)]
pub struct OutputBytes {
    pub bytes: Vec<u8>,
}

impl OutputBytes {
    /// Serializes a value; a function or circuit value has no byte encoding.
    pub fn encode(v: &ConstrainedValue) -> (r: Result<OutputBytes, CompilerError>)
        ensures
            match r {
                Ok(ob) => encodable(*v) && ob.bytes@ == value_bytes(*v),
                Err(e) => !encodable(*v) && (e matches CompilerError::UnsupportedOperation(_)),
            },
    {
        let mut out: Vec<u8> = Vec::new();
        match encode_value(v, &mut out) {
            Ok(()) => {
                proof {
                    assert(out@ =~= value_bytes(*v));
                }
                Ok(OutputBytes { bytes: out })
            },
            Err(e) => Err(e),
        }
    }

    /// Decodes the bytes back into the unbound value they encode; `None` if
    /// the bytes are not a complete, valid encoding.
    pub fn decode(&self) -> (r: Option<ConstrainedValue>)
        ensures
            match r {
                Some(v) => encodable(v) && unbound_value(v) && is_data_value(v) && value_bytes(v)
                    == self.bytes@,
                None => true,
            },
            (exists|v: ConstrainedValue|
                canonical_primitive(v) && value_bytes(v) == self.bytes@) ==> r is Some,
    {
        match decode_value(&self.bytes, 0) {
            Some((v, end)) => {
                if end == self.bytes.len() {
                    proof {
                        assert(self.bytes@.subrange(0, self.bytes@.len() as int) =~= self.bytes@);
                    }
                    Some(v)
                } else {
                    proof {
                        if exists|v0: ConstrainedValue|
                            canonical_primitive(v0) && value_bytes(v0) == self.bytes@ {
                            let v0 = choose|v0: ConstrainedValue|
                                canonical_primitive(v0) && value_bytes(v0) == self.bytes@;
                            lemma_value_bytes_shape(v0);
                            lemma_value_bytes_shape(v);
                            assert(value_bytes(v)[0] == self.bytes@[0]);
                            assert(value_bytes(v0)[0] == self.bytes@[0]);
                            assert(value_bytes(v).len() == end);
                            assert(value_bytes(v0).len() == self.bytes@.len());
                            assert(false);
                        }
                    }
                    None
                }
            },
            None => {
                proof {
                    if exists|v0: ConstrainedValue|
                        canonical_primitive(v0) && value_bytes(v0) == self.bytes@ {
                        let v0 = choose|v0: ConstrainedValue|
                            canonical_primitive(v0) && value_bytes(v0) == self.bytes@;
                        assert(self.bytes@.subrange(0, self.bytes@.len() as int) =~= self.bytes@);
                        assert(canonical_primitive(v0) && 0 <= self.bytes@.len() as int
                            <= self.bytes@.len() && value_bytes(v0) == self.bytes@.subrange(
                            0,
                            self.bytes@.len() as int,
                        ));
                        assert(false);
                    }
                }
                None
            },
        }
    }
}

/// Decodes one value starting at a byte offset, returning it together with
/// the offset one past its encoding.
#[verifier::loop_isolation(false)]
fn decode_value(bytes: &Vec<u8>, pos: usize) -> (r: Option<(ConstrainedValue, usize)>)
    ensures
        match r {
            Some((v, end)) => pos < end <= bytes@.len() && encodable(v) && unbound_value(v)
                && is_data_value(v) && value_bytes(v) == bytes@.subrange(pos as int, end as int),
            None => true,
        },
        (exists|v: ConstrainedValue, end: int|
            canonical_primitive(v) && pos <= end <= bytes@.len() && value_bytes(v)
                == bytes@.subrange(pos as int, end)) ==> r is Some,
    decreases bytes@.len() - pos,
{
    let ghost prim_here = exists|v: ConstrainedValue, end: int|
        canonical_primitive(v) && pos <= end <= bytes@.len() && value_bytes(v) == bytes@.subrange(
            pos as int,
            end,
        );
    let blen = bytes.len();
    if pos >= blen {
        proof {
            if prim_here {
                lemma_primitive_witness(bytes@, pos as int);
            }
        }
        return None;
    }
    let tag = bytes[pos];
    if tag == 0u8 {
        if blen - pos < 2 {
            proof {
                if prim_here {
                    lemma_primitive_witness(bytes@, pos as int);
                }
            }
            return None;
        }
        let b = bytes[pos + 1];
        if b != 0u8 && b != 1u8 {
            proof {
                if prim_here {
                    lemma_primitive_witness(bytes@, pos as int);
                }
            }
            return None;
        }
        let v = ConstrainedValue::Boolean(BoolValue { value: b == 1u8, variable: None });
        proof {
            assert(value_bytes(v) =~= bytes@.subrange(pos as int, pos as int + 2));
        }
        Some((v, pos + 2))
    } else if tag == 1u8 {
        if blen - pos < 10 {
            proof {
                if prim_here {
                    lemma_primitive_witness(bytes@, pos as int);
                }
            }
            return None;
        }
        let w = bytes[pos + 1];
        if !(w == 8u8 || w == 16u8 || w == 32u8) {
            proof {
                if prim_here {
                    lemma_primitive_witness(bytes@, pos as int);
                }
            }
            return None;
        }
        proof {
            lemma_from_le_bounds(bytes@.subrange(pos as int + 2, pos as int + 10));
            lemma_from_le_upper(bytes@.subrange(pos as int + 2, pos as int + 10));
        }
        let value = read_u64(bytes, pos + 2);
        let width: u32 = w as u32;
        if value >= width_bound_exec(width) {
            proof {
                if prim_here {
                    lemma_primitive_witness(bytes@, pos as int);
                }
            }
            return None;
        }
        let v = ConstrainedValue::Integer(IntValue { width, value, variable: None });
        proof {
            lemma_le_bytes_of_from_le(bytes@.subrange(pos as int + 2, pos as int + 10));
            assert(value_bytes(v) =~= bytes@.subrange(pos as int, pos as int + 10));
        }
        Some((v, pos + 10))
    } else if tag == 2u8 {
        if blen - pos < 9 {
            proof {
                if prim_here {
                    lemma_primitive_witness(bytes@, pos as int);
                }
            }
            return None;
        }
        proof {
            lemma_from_le_bounds(bytes@.subrange(pos as int + 1, pos as int + 9));
            lemma_from_le_upper(bytes@.subrange(pos as int + 1, pos as int + 9));
        }
        let value = read_u64(bytes, pos + 1);
        if value >= FIELD_PRIME {
            proof {
                if prim_here {
                    lemma_primitive_witness(bytes@, pos as int);
                }
            }
            return None;
        }
        let v = ConstrainedValue::FieldElement(FieldValue { value, variable: None });
        proof {
            lemma_le_bytes_of_from_le(bytes@.subrange(pos as int + 1, pos as int + 9));
            assert(value_bytes(v) =~= bytes@.subrange(pos as int, pos as int + 9));
        }
        Some((v, pos + 9))
    } else if tag == 3u8 {
        if blen - pos < 17 {
            proof {
                if prim_here {
                    lemma_primitive_witness(bytes@, pos as int);
                }
            }
            return None;
        }
        proof {
            lemma_from_le_bounds(bytes@.subrange(pos as int + 1, pos as int + 9));
            lemma_from_le_upper(bytes@.subrange(pos as int + 1, pos as int + 9));
            lemma_from_le_bounds(bytes@.subrange(pos as int + 9, pos as int + 17));
            lemma_from_le_upper(bytes@.subrange(pos as int + 9, pos as int + 17));
        }
        let x = read_u64(bytes, pos + 1);
        let y = read_u64(bytes, pos + 9);
        if x >= FIELD_PRIME || y >= FIELD_PRIME {
            proof {
                if prim_here {
                    lemma_primitive_witness(bytes@, pos as int);
                }
            }
            return None;
        }
        let v = ConstrainedValue::Group(
            GroupValue {
                x: FieldValue { value: x, variable: None },
                y: FieldValue { value: y, variable: None },
            },
        );
        proof {
            lemma_le_bytes_of_from_le(bytes@.subrange(pos as int + 1, pos as int + 9));
            lemma_le_bytes_of_from_le(bytes@.subrange(pos as int + 9, pos as int + 17));
            assert(value_bytes(v) =~= bytes@.subrange(pos as int, pos as int + 17));
        }
        Some((v, pos + 17))
    } else if tag == 4u8 || tag == 5u8 {
        if blen - pos < 9 {
            proof {
                if prim_here {
                    lemma_primitive_witness(bytes@, pos as int);
                }
            }
            return None;
        }
        proof {
            lemma_from_le_bounds(bytes@.subrange(pos as int + 1, pos as int + 9));
            lemma_from_le_upper(bytes@.subrange(pos as int + 1, pos as int + 9));
        }
        let count64 = read_u64(bytes, pos + 1);
        if count64 > (blen - (pos + 9)) as u64 {
            proof {
                if prim_here {
                    lemma_primitive_witness(bytes@, pos as int);
                }
            }
            return None;
        }
        let count = count64 as usize;
        let mut elements: Vec<ConstrainedValue> = Vec::new();
        let body_start = pos + 9;
        let mut cur = body_start;
        let mut i: usize = 0;
        while i < count
            invariant
                0 <= i <= count,
                elements@.len() == i,
                body_start <= cur <= blen,
                forall|j: int|
                    0 <= j < i ==> encodable(#[trigger] elements@[j]) && unbound_value(
                        elements@[j],
                    ) && is_data_value(elements@[j]),
                values_bytes(elements@) =~= bytes@.subrange(body_start as int, cur as int),
                i > 0 ==> cur > body_start,
            decreases count - i,
        {
            match decode_value(bytes, cur) {
                Some((v, end)) => {
                    let ghost pre = elements@;
                    elements.push(v);
                    proof {
                        lemma_values_bytes_push(pre, v);
                        assert(bytes@.subrange(body_start as int, end as int) =~= bytes@.subrange(
                            body_start as int,
                            cur as int,
                        ) + bytes@.subrange(cur as int, end as int));
                    }
                    cur = end;
                },
                None => {
                    proof {
                        if prim_here {
                            lemma_primitive_witness(bytes@, pos as int);
                        }
                    }
                    return None;
                },
            }
            i = i + 1;
        }
        let v = if tag == 4u8 {
            ConstrainedValue::Array(elements)
        } else {
            ConstrainedValue::Tuple(elements)
        };
        proof {
            lemma_le_bytes_of_from_le(bytes@.subrange(pos as int + 1, pos as int + 9));
            assert(value_bytes(v) =~= bytes@.subrange(pos as int, cur as int));
        }
        Some((v, cur))
    } else {
        proof {
            if prim_here {
                lemma_primitive_witness(bytes@, pos as int);
            }
        }
        None
    }
}

/// The value read from bytes is below 256 to the power of their count.
proof fn lemma_from_le_upper(s: Seq<u8>)
    ensures
        from_le(s) < vstd::arithmetic::power::pow(256, s.len() as nat),
        s.len() == 8 ==> from_le(s) <= u64::MAX,
    decreases s.len(),
{
    if s.len() == 0 {
        vstd::arithmetic::power::lemma_pow0(256);
    } else {
        lemma_from_le_upper(s.skip(1));
        vstd::arithmetic::power::lemma_pow_adds(256, 1, (s.len() - 1) as nat);
        vstd::arithmetic::power::lemma_pow1(256);
    }
    if s.len() == 8 {
        assert(vstd::arithmetic::power::pow(256, 8) == 0x10000000000000000) by {
            vstd::arithmetic::power::lemma_pow_adds(256, 4, 4);
            vstd::arithmetic::power::lemma_pow_adds(256, 2, 2);
            vstd::arithmetic::power::lemma_pow_adds(256, 1, 1);
            vstd::arithmetic::power::lemma_pow1(256);
            assert(256int * 256 == 65536) by (nonlinear_arith);
            assert(65536int * 65536 == 0x100000000) by (nonlinear_arith);
            assert(0x100000000int * 0x100000000 == 0x10000000000000000) by (nonlinear_arith);
        }
    }
}

} // verus!
