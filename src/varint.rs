//! The firmware's variable-length encoding of 32-bit integers.
//!
//! A value is sent as one to five bytes, most significant group first.
//! Every byte but the last has its top bit set; the last has it clear.
use vstd::prelude::*;

verus! {

/// Error of a varint decode.
#[derive(Debug, Clone, Copy, PartialEq, Eq, Structural)]
pub enum CodecError {
    /// The continuation chain ran past the end of the input.
    Truncated,
}

/// Number of bytes the encoding of `v` takes.
pub open spec fn encoded_len_spec(v: i32) -> nat {
    if -32 <= v <= 95 {
        1
    } else if -4096 <= v <= 12287 {
        2
    } else if -524288 <= v <= 1572863 {
        3
    } else if -67108864 <= v <= 201326591 {
        4
    } else {
        5
    }
}

/// Byte `i` of the `k`-byte encoding of `v`.
pub open spec fn varint_byte(v: i32, k: nat, i: nat) -> u8 {
    if i + 1 == k {
        (v & 0x7f) as u8
    } else {
        (((v >> ((7 * (k - 1 - i)) as i32)) & 0x7f) | 0x80) as u8
    }
}

/// The encoding of `v`.
pub open spec fn encode_spec(v: i32) -> Seq<u8> {
    Seq::new(encoded_len_spec(v), |i: int| varint_byte(v, encoded_len_spec(v), i as nat))
}

/// Accumulator after the first byte `c`: its seven low bits, sign-extended
/// when bits 5 and 6 are both set.
pub open spec fn first_acc(c: u8) -> u32 {
    if c & 0x60 == 0x60 {
        ((c & 0x7f) as u32) | 0xffff_ffe0u32
    } else {
        (c & 0x7f) as u32
    }
}

/// Shifts in one more byte.
pub open spec fn next_acc(acc: u32, c: u8) -> u32 {
    ((acc << 7u32) | ((c & 0x7f) as u32)) as u32
}

/// Decodes the bytes from index `i` on, with accumulator `acc` and the byte
/// before index `i` having its top bit set; gives the value and the index
/// after the terminal byte.
pub open spec fn decode_from(bytes: Seq<u8>, i: nat, acc: u32) -> Option<(u32, nat)>
    decreases bytes.len() - i,
{
    if i >= bytes.len() {
        None
    } else {
        let c = bytes[i as int];
        let a = next_acc(acc, c);
        if c & 0x80 != 0 {
            decode_from(bytes, i + 1, a)
        } else {
            Some((a, i + 1))
        }
    }
}

/// Decodes one value from the start of `bytes`: the value and the number of
/// bytes it took, or `None` when the chain runs off the end.
pub open spec fn decode_spec(bytes: Seq<u8>) -> Option<(i32, nat)> {
    if bytes.len() == 0 {
        None
    } else {
        let c = bytes[0];
        let r = if c & 0x80 != 0 {
            decode_from(bytes, 1, first_acc(c))
        } else {
            Some((first_acc(c), 1nat))
        };
        match r {
            Some((a, n)) => Some((a as i32, n)),
            None => None,
        }
    }
}

/// Number of bytes that `value` takes on the wire.
pub fn encoded_len(value: i32) -> (r: usize)
    ensures
        r == encoded_len_spec(value),
{
    if -32 <= value && value <= 95 {
        1
    } else if -4096 <= value && value <= 12_287 {
        2
    } else if -524_288 <= value && value <= 1_572_863 {
        3
    } else if -67_108_864 <= value && value <= 201_326_591 {
        4
    } else {
        5
    }
}


/// Appends the encoding of `v` to `out`.
pub fn encode_varint_into(out: &mut Vec<u8>, v: i32)
    ensures
        final(out)@ == old(out)@ + encode_spec(v),
{
    let n = encoded_len(v);
    let ghost start = out@;
    let mut i: usize = 0;
    while i + 1 < n
        invariant
            1 <= n <= 5,
            n == encoded_len_spec(v),
            i + 1 <= n,
            out@ == start + Seq::new(i as nat, |j: int| varint_byte(v, n as nat, j as nat)),
        decreases n - i,
    {
        let shift: i32 = (7 * (n - 1 - i)) as i32;
        out.push((((v >> shift) & 0x7f) | 0x80) as u8);
        i += 1;
        assert(out@ =~= start + Seq::new(i as nat, |j: int| varint_byte(v, n as nat, j as nat)));
    }
    out.push((v & 0x7f) as u8);
    assert(out@ =~= start + encode_spec(v));
}

/// The encoding of `v`.
pub fn encode_varint(v: i32) -> (r: Vec<u8>)
    ensures
        r@ == encode_spec(v),
{
    let mut out: Vec<u8> = Vec::new();
    encode_varint_into(&mut out, v);
    assert(out@ =~= encode_spec(v));
    out
}

/// Decodes one value that starts at `pos`; gives the value and the position
/// after its last byte.
pub fn decode_varint(bytes: &[u8], pos: usize) -> (r: Result<(i32, usize), CodecError>)
    requires
        pos <= bytes@.len(),
    ensures
        match decode_spec(bytes@.skip(pos as int)) {
            Some((v, n)) => r matches Ok((x, end)) && x == v && end == pos + n,
            None => r == Err::<(i32, usize), CodecError>(CodecError::Truncated),
        },
        r matches Ok((_, end)) ==> pos < end <= bytes@.len(),
{
    let ghost s = bytes@.skip(pos as int);
    if pos >= bytes.len() {
        return Err(CodecError::Truncated);
    }
    let c = bytes[pos];
    let mut acc: u32 = if c & 0x60 == 0x60 {
        ((c & 0x7f) as u32) | 0xffff_ffe0u32
    } else {
        (c & 0x7f) as u32
    };
    let ghost target = if c & 0x80 != 0 {
        decode_from(s, 1, first_acc(c))
    } else {
        Some((first_acc(c), 1nat))
    };
    assert(decode_spec(s) == match target {
        Some((a, n)) => Some((a as i32, n)),
        None => None::<(i32, nat)>,
    });
    let mut i: usize = pos + 1;
    let mut last: u8 = c;
    while last & 0x80 != 0
        invariant
            pos < i <= bytes@.len(),
            s == bytes@.skip(pos as int),
            s[0] == c,
            decode_spec(s) == match target {
                Some((a, n)) => Some((a as i32, n)),
                None => None::<(i32, nat)>,
            },
            last & 0x80 != 0 ==> target == decode_from(s, (i - pos) as nat, acc),
            last & 0x80 == 0 ==> target == Some((acc, (i - pos) as nat)),
        decreases bytes@.len() - i,
    {
        if i >= bytes.len() {
            assert(decode_from(s, (i - pos) as nat, acc) is None);
            return Err(CodecError::Truncated);
        }
        let d = bytes[i];
        assert(s[(i - pos) as int] == d);
        acc = (acc << 7u32) | ((d & 0x7f) as u32);
        i += 1;
        last = d;
    }
    Ok((#[verifier::truncate] (acc as i32), i))
}

/// The encoded bytes of one value.
#[derive(Debug, Clone, PartialEq, Eq)]
pub struct KlipperVarint(pub Vec<u8>);

/// Integer types that travel as one varint: the value is sent as its 32-bit
/// two's-complement pattern.
pub trait KlipperBytes: Sized {
    /// The 32-bit pattern that is put on the wire for this value.
    spec fn wire_value(self) -> i32;

    /// The value that a decoded 32-bit pattern stands for.
    spec fn from_wire(v: i32) -> Self;

    fn to_klipper_bytes(self) -> (r: KlipperVarint)
        ensures
            r.0@ == encode_spec(self.wire_value()),
    ;

    fn from_klipper_bytes(bytes: &KlipperVarint) -> (r: Result<Self, CodecError>)
        ensures
            match decode_spec(bytes.0@) {
                Some((v, _)) => r == Ok::<Self, CodecError>(Self::from_wire(v)),
                None => r == Err::<Self, CodecError>(CodecError::Truncated),
            },
    ;
}

impl KlipperBytes for u32 {
    open spec fn wire_value(self) -> i32 {
        self as i32
    }

    open spec fn from_wire(v: i32) -> u32 {
        v as u32
    }

    fn to_klipper_bytes(self) -> (r: KlipperVarint) {
        KlipperVarint(encode_varint(#[verifier::truncate] (self as i32)))
    }

    fn from_klipper_bytes(bytes: &KlipperVarint) -> (r: Result<u32, CodecError>) {
        assert(bytes.0@.skip(0) =~= bytes.0@);
        match decode_varint(bytes.0.as_slice(), 0) {
            Ok((v, _)) => Ok(#[verifier::truncate] (v as u32)),
            Err(e) => Err(e),
        }
    }
}

impl KlipperBytes for i32 {
    open spec fn wire_value(self) -> i32 {
        self
    }

    open spec fn from_wire(v: i32) -> i32 {
        v
    }

    fn to_klipper_bytes(self) -> (r: KlipperVarint) {
        KlipperVarint(encode_varint(self))
    }

    fn from_klipper_bytes(bytes: &KlipperVarint) -> (r: Result<i32, CodecError>) {
        assert(bytes.0@.skip(0) =~= bytes.0@);
        match decode_varint(bytes.0.as_slice(), 0) {
            Ok((v, _)) => Ok(v),
            Err(e) => Err(e),
        }
    }
}

/// Decoding the encoding of any value gives the value back, and takes
/// exactly the bytes of the encoding.
pub proof fn lemma_varint_round_trip(v: i32)
    ensures
        decode_spec(encode_spec(v)) == Some((v, encoded_len_spec(v))),
{
    lemma_varint_prefix(v, Seq::empty());
    assert(encode_spec(v) + Seq::<u8>::empty() =~= encode_spec(v));
}

/// Whatever follows an encoding, decoding reads exactly the encoded value.
pub proof fn lemma_varint_prefix(v: i32, tail: Seq<u8>)
    ensures
        decode_spec(encode_spec(v) + tail) == Some((v, encoded_len_spec(v))),
{
    let e = encode_spec(v) + tail;
    let k = encoded_len_spec(v);
    if k == 1 {
        let b0 = (v & 0x7f) as u8;
        assert(e[0] == b0);
        assert(b0 & 0x80 == 0 && first_acc(b0) as i32 == v) by (bit_vector)
            requires
                -32 <= v <= 95,
                b0 == (v & 0x7f) as u8,
        ;
    } else if k == 2 {
        let b0 = (((v >> 7i32) & 0x7f) | 0x80) as u8;
        let b1 = (v & 0x7f) as u8;
        assert(e[0] == b0 && e[1] == b1);
        assert(b0 & 0x80 != 0 && b1 & 0x80 == 0 && next_acc(first_acc(b0), b1) as i32 == v)
            by (bit_vector)
            requires
                -4096 <= v <= 12287,
                b0 == (((v >> 7i32) & 0x7f) | 0x80) as u8,
                b1 == (v & 0x7f) as u8,
        ;
        assert(decode_from(e, 1, first_acc(b0)) == Some((next_acc(first_acc(b0), b1), 2nat)));
    } else if k == 3 {
        let b0 = (((v >> 14i32) & 0x7f) | 0x80) as u8;
        let b1 = (((v >> 7i32) & 0x7f) | 0x80) as u8;
        let b2 = (v & 0x7f) as u8;
        assert(e[0] == b0 && e[1] == b1 && e[2] == b2);
        assert(b0 & 0x80 != 0 && b1 & 0x80 != 0 && b2 & 0x80 == 0 && next_acc(
            next_acc(first_acc(b0), b1),
            b2,
        ) as i32 == v) by (bit_vector)
            requires
                -524288 <= v <= 1572863,
                b0 == (((v >> 14i32) & 0x7f) | 0x80) as u8,
                b1 == (((v >> 7i32) & 0x7f) | 0x80) as u8,
                b2 == (v & 0x7f) as u8,
        ;
        let a1 = next_acc(first_acc(b0), b1);
        assert(decode_from(e, 2, a1) == Some((next_acc(a1, b2), 3nat)));
    } else if k == 4 {
        let b0 = (((v >> 21i32) & 0x7f) | 0x80) as u8;
        let b1 = (((v >> 14i32) & 0x7f) | 0x80) as u8;
        let b2 = (((v >> 7i32) & 0x7f) | 0x80) as u8;
        let b3 = (v & 0x7f) as u8;
        assert(e[0] == b0 && e[1] == b1 && e[2] == b2 && e[3] == b3);
        assert(b0 & 0x80 != 0 && b1 & 0x80 != 0 && b2 & 0x80 != 0 && b3 & 0x80 == 0 && next_acc(
            next_acc(next_acc(first_acc(b0), b1), b2),
            b3,
        ) as i32 == v) by (bit_vector)
            requires
                -67108864 <= v <= 201326591,
                b0 == (((v >> 21i32) & 0x7f) | 0x80) as u8,
                b1 == (((v >> 14i32) & 0x7f) | 0x80) as u8,
                b2 == (((v >> 7i32) & 0x7f) | 0x80) as u8,
                b3 == (v & 0x7f) as u8,
        ;
        let a1 = next_acc(first_acc(b0), b1);
        let a2 = next_acc(a1, b2);
        assert(decode_from(e, 3, a2) == Some((next_acc(a2, b3), 4nat)));
        assert(decode_from(e, 2, a1) == decode_from(e, 3, a2));
    } else {
        let b0 = (((v >> 28i32) & 0x7f) | 0x80) as u8;
        let b1 = (((v >> 21i32) & 0x7f) | 0x80) as u8;
        let b2 = (((v >> 14i32) & 0x7f) | 0x80) as u8;
        let b3 = (((v >> 7i32) & 0x7f) | 0x80) as u8;
        let b4 = (v & 0x7f) as u8;
        assert(e[0] == b0 && e[1] == b1 && e[2] == b2 && e[3] == b3 && e[4] == b4);
        assert(b0 & 0x80 != 0 && b1 & 0x80 != 0 && b2 & 0x80 != 0 && b3 & 0x80 != 0 && b4 & 0x80
            == 0 && next_acc(
            next_acc(next_acc(next_acc(first_acc(b0), b1), b2), b3),
            b4,
        ) as i32 == v) by (bit_vector)
            requires
                b0 == (((v >> 28i32) & 0x7f) | 0x80) as u8,
                b1 == (((v >> 21i32) & 0x7f) | 0x80) as u8,
                b2 == (((v >> 14i32) & 0x7f) | 0x80) as u8,
                b3 == (((v >> 7i32) & 0x7f) | 0x80) as u8,
                b4 == (v & 0x7f) as u8,
        ;
        let a1 = next_acc(first_acc(b0), b1);
        let a2 = next_acc(a1, b2);
        let a3 = next_acc(a2, b3);
        assert(decode_from(e, 4, a3) == Some((next_acc(a3, b4), 5nat)));
        assert(decode_from(e, 3, a2) == decode_from(e, 4, a3));
        assert(decode_from(e, 2, a1) == decode_from(e, 3, a2));
    }
}

/// The encoding of `v` is as long as the table of lengths says.
pub proof fn lemma_varint_length(v: i32)
    ensures
        encode_spec(v).len() == encoded_len_spec(v),
        -32 <= v <= 95 ==> encode_spec(v).len() == 1,
        (v < -32 || v > 95) && -4096 <= v <= 12287 ==> encode_spec(v).len() == 2,
        (v < -4096 || v > 12287) && -524288 <= v <= 1572863 ==> encode_spec(v).len() == 3,
        (v < -524288 || v > 1572863) && -67108864 <= v <= 201326591 ==> encode_spec(v).len() == 4,
        v < -67108864 || v > 201326591 ==> encode_spec(v).len() == 5,
{
}

/// An unsigned value survives the trip through its wire pattern.
pub proof fn lemma_u32_wire_round_trip(x: u32)
    ensures
        <u32 as KlipperBytes>::from_wire(x.wire_value()) == x,
        decode_spec(encode_spec(x.wire_value())) == Some((x.wire_value(), encoded_len_spec(x.wire_value()))),
{
    lemma_varint_round_trip(x.wire_value());
    assert(((x as i32) as u32) == x) by (bit_vector);
}

} // verus!
