//! Arguments of commands and responses on the wire: each scalar field is
//! one varint, each byte-string field a varint length and then the bytes.
use vstd::prelude::*;
use indexmap::IndexMap;
use crate::command::EnumType;
use crate::command::field_at;
use crate::command::field_count;
use crate::command::field_entries;
use crate::data::MessageDef;
use crate::data::Registry;
use crate::data::distinct_messages;
use crate::data::messages_view;
use crate::varint::decode_spec;
use crate::varint::decode_varint;
use crate::varint::encode_spec;
use crate::varint::encode_varint_into;
use crate::varint::lemma_varint_prefix;

verus! {

/// Why arguments could not be encoded or decoded.
#[derive(Debug, Clone, Copy, PartialEq, Eq, Structural)]
pub enum MessageError {
    /// The values do not match the fields in number, names, order or types.
    ArgumentMismatch,
    /// A byte string is longer than a length varint can state.
    TooLong,
    /// The bytes ran out in the middle of a value.
    Truncated,
    /// No response has the id that the message starts with.
    NoSuchId(i32),
}

/// The value of one field.
#[derive(Debug, Clone, PartialEq, Eq)]
pub enum FieldValue {
    U8(u8),
    U16(u16),
    U32(u32),
    I16(i16),
    I32(i32),
    Bytes(Vec<u8>),
}

/// A field value with its bytes as a sequence.
pub enum ValueModel {
    U8(u8),
    U16(u16),
    U32(u32),
    I16(i16),
    I32(i32),
    Bytes(Seq<u8>),
}

impl View for FieldValue {
    type V = ValueModel;

    open spec fn view(&self) -> ValueModel {
        match self {
            FieldValue::U8(x) => ValueModel::U8(*x),
            FieldValue::U16(x) => ValueModel::U16(*x),
            FieldValue::U32(x) => ValueModel::U32(*x),
            FieldValue::I16(x) => ValueModel::I16(*x),
            FieldValue::I32(x) => ValueModel::I32(*x),
            FieldValue::Bytes(b) => ValueModel::Bytes(b@),
        }
    }
}

/// The field type a value has.
pub open spec fn value_type(v: ValueModel) -> EnumType {
    match v {
        ValueModel::U8(_) => EnumType::U8,
        ValueModel::U16(_) => EnumType::U16,
        ValueModel::U32(_) => EnumType::U32,
        ValueModel::I16(_) => EnumType::I16,
        ValueModel::I32(_) => EnumType::I32,
        ValueModel::Bytes(_) => EnumType::Bytes,
    }
}

/// The 32-bit pattern a scalar value is sent as.
pub open spec fn scalar_wire(v: ValueModel) -> i32 {
    match v {
        ValueModel::U8(x) => x as i32,
        ValueModel::U16(x) => x as i32,
        ValueModel::U32(x) => x as i32,
        ValueModel::I16(x) => x as i32,
        ValueModel::I32(x) => x,
        ValueModel::Bytes(_) => 0,
    }
}

/// The bytes of one value.
pub open spec fn encode_value(v: ValueModel) -> Seq<u8> {
    match v {
        ValueModel::Bytes(b) => encode_spec(b.len() as i32) + b,
        _ => encode_spec(scalar_wire(v)),
    }
}

/// Named values with their bytes as sequences.
pub open spec fn named_view(vs: Seq<(String, FieldValue)>) -> Seq<(Seq<char>, ValueModel)> {
    Seq::new(vs.len(), |i: int| (vs[i].0@, vs[i].1@))
}

/// The bytes of the values, one after the other.
pub open spec fn encode_values(vs: Seq<(Seq<char>, ValueModel)>) -> Seq<u8>
    decreases vs.len(),
{
    if vs.len() == 0 {
        Seq::empty()
    } else {
        encode_values(vs.drop_last()) + encode_value(vs.last().1)
    }
}

/// The values name the fields in order and have their types.
pub open spec fn args_match(fs: Seq<(Seq<char>, EnumType)>, vs: Seq<(Seq<char>, ValueModel)>) -> bool {
    &&& fs.len() == vs.len()
    &&& forall|i: int|
        0 <= i < fs.len() ==> (#[trigger] fs[i]).0 == vs[i].0 && fs[i].1 == value_type(vs[i].1)
}

/// Every byte string's length fits a length varint.
pub open spec fn lengths_fit(vs: Seq<(Seq<char>, ValueModel)>) -> bool {
    forall|i: int|
        0 <= i < vs.len() ==> ((#[trigger] vs[i]).1 matches ValueModel::Bytes(b) ==> b.len()
            <= i32::MAX)
}

fn type_of(v: &FieldValue) -> (r: EnumType)
    ensures
        r == value_type(v@),
{
    match v {
        FieldValue::U8(_) => EnumType::U8,
        FieldValue::U16(_) => EnumType::U16,
        FieldValue::U32(_) => EnumType::U32,
        FieldValue::I16(_) => EnumType::I16,
        FieldValue::I32(_) => EnumType::I32,
        FieldValue::Bytes(_) => EnumType::Bytes,
    }
}

/// Appends the bytes of `v`.
fn encode_value_into(out: &mut Vec<u8>, v: &FieldValue)
    requires
        v@ matches ValueModel::Bytes(b) ==> b.len() <= i32::MAX,
    ensures
        final(out)@ == old(out)@ + encode_value(v@),
{
    match v {
        FieldValue::U8(x) => encode_varint_into(out, *x as i32),
        FieldValue::U16(x) => encode_varint_into(out, *x as i32),
        FieldValue::U32(x) => encode_varint_into(out, #[verifier::truncate] (*x as i32)),
        FieldValue::I16(x) => encode_varint_into(out, *x as i32),
        FieldValue::I32(x) => encode_varint_into(out, *x),
        FieldValue::Bytes(b) => {
            let ghost start = out@;
            encode_varint_into(out, b.len() as i32);
            let ghost mid = out@;
            let mut i: usize = 0;
            while i < b.len()
                invariant
                    i <= b@.len(),
                    out@ == mid + b@.take(i as int),
                decreases b@.len() - i,
            {
                out.push(b[i]);
                i += 1;
                assert(out@ =~= mid + b@.take(i as int));
            }
            assert(b@.take(i as int) =~= b@);
            assert(out@ =~= start + encode_value(v@));
        },
    }
}

/// Encodes `values` as the arguments of a definition with `fields`.
pub fn encode_args(fields: &IndexMap<String, EnumType>, values: &Vec<(String, FieldValue)>) -> (r:
    Result<Vec<u8>, MessageError>)
    ensures
        !args_match(field_entries(*fields), named_view(values@)) ==> r == Err::<
            Vec<u8>,
            MessageError,
        >(MessageError::ArgumentMismatch),
        args_match(field_entries(*fields), named_view(values@)) && !lengths_fit(
            named_view(values@),
        ) ==> r == Err::<Vec<u8>, MessageError>(MessageError::TooLong),
        args_match(field_entries(*fields), named_view(values@)) && lengths_fit(
            named_view(values@),
        ) ==> (r matches Ok(bytes) && bytes@ == encode_values(named_view(values@))),
{
    let ghost fs = field_entries(*fields);
    let ghost nv = named_view(values@);
    let n = field_count(fields);
    if n != values.len() {
        return Err(MessageError::ArgumentMismatch);
    }
    let mut i: usize = 0;
    while i < n
        invariant
            n == fs.len(),
            fs == field_entries(*fields),
            nv == named_view(values@),
            n == values@.len(),
            i <= n,
            forall|j: int| 0 <= j < i ==> (#[trigger] fs[j]).0 == nv[j].0 && fs[j].1 == value_type(nv[j].1),
        decreases n - i,
    {
        match field_at(fields, i) {
            Some((name, ty)) => {
                if *name != values[i].0 || *ty != type_of(&values[i].1) {
                    assert(!(fs[i as int].0 == nv[i as int].0 && fs[i as int].1 == value_type(nv[i as int].1)));
                    return Err(MessageError::ArgumentMismatch);
                }
            },
            None => {
                return Err(MessageError::ArgumentMismatch);
            },
        }
        i += 1;
    }
    assert(args_match(fs, nv));
    let mut k: usize = 0;
    while k < n
        invariant
            n == values@.len(),
            nv == named_view(values@),
            fs == field_entries(*fields),
            args_match(fs, nv),
            k <= n,
            forall|j: int| 0 <= j < k ==> ((#[trigger] nv[j]).1 matches ValueModel::Bytes(b) ==> b.len() <= i32::MAX),
        decreases n - k,
    {
        if let FieldValue::Bytes(b) = &values[k].1 {
            if b.len() > i32::MAX as usize {
                assert(nv[k as int].1 == ValueModel::Bytes(b@));
                assert(!lengths_fit(nv));
                return Err(MessageError::TooLong);
            }
        }
        k += 1;
    }
    let mut out: Vec<u8> = Vec::new();
    let mut j: usize = 0;
    assert(nv.take(0) =~= Seq::<(Seq<char>, ValueModel)>::empty());
    while j < n
        invariant
            n == values@.len(),
            nv == named_view(values@),
            fs == field_entries(*fields),
            args_match(fs, nv),
            lengths_fit(nv),
            j <= n,
            out@ == encode_values(nv.take(j as int)),
        decreases n - j,
    {
        assert(nv.take(j + 1).drop_last() =~= nv.take(j as int));
        assert(nv[j as int] == nv[j as int]);
        encode_value_into(&mut out, &values[j].1);
        j += 1;
    }
    assert(nv.take(j as int) =~= nv);
    Ok(out)
}

/// Encodes a command: its id, then its arguments.
pub fn encode_command(def: &MessageDef, values: &Vec<(String, FieldValue)>) -> (r: Result<
    Vec<u8>,
    MessageError,
>)
    ensures
        !args_match(field_entries(def.command.fields), named_view(values@)) ==> r == Err::<
            Vec<u8>,
            MessageError,
        >(MessageError::ArgumentMismatch),
        args_match(field_entries(def.command.fields), named_view(values@)) && !lengths_fit(
            named_view(values@),
        ) ==> r == Err::<Vec<u8>, MessageError>(MessageError::TooLong),
        args_match(field_entries(def.command.fields), named_view(values@)) && lengths_fit(
            named_view(values@),
        ) ==> (r matches Ok(bytes) && bytes@ == encode_spec(def.id as i32) + encode_values(
            named_view(values@),
        )),
{
    match encode_args(&def.command.fields, values) {
        Ok(args) => {
            let mut out: Vec<u8> = Vec::new();
            encode_varint_into(&mut out, def.id as i32);
            let ghost head = out@;
            let mut i: usize = 0;
            while i < args.len()
                invariant
                    i <= args@.len(),
                    out@ == head + args@.take(i as int),
                decreases args@.len() - i,
            {
                out.push(args[i]);
                i += 1;
                assert(out@ =~= head + args@.take(i as int));
            }
            assert(args@.take(i as int) =~= args@);
            assert(head =~= encode_spec(def.id as i32));
            Ok(out)
        },
        Err(e) => Err(e),
    }
}

/// The scalar value of type `ty` that the 32-bit pattern `v` stands for.
pub open spec fn value_from_wire(ty: EnumType, v: i32) -> ValueModel {
    match ty {
        EnumType::U8 => ValueModel::U8(v as u8),
        EnumType::U16 => ValueModel::U16(v as u16),
        EnumType::U32 => ValueModel::U32(v as u32),
        EnumType::I16 => ValueModel::I16(v as i16),
        _ => ValueModel::I32(v),
    }
}

/// Decodes one value of type `ty` from the start of `b`: the value and the
/// number of bytes it took.
pub open spec fn decode_one(ty: EnumType, b: Seq<u8>) -> Option<(ValueModel, nat)> {
    match decode_spec(b) {
        None => None,
        Some((v, n)) => if ty == EnumType::Bytes {
            let len = v as u32 as nat;
            if n + len > b.len() {
                None
            } else {
                Some((ValueModel::Bytes(b.subrange(n as int, (n + len) as int)), n + len))
            }
        } else {
            Some((value_from_wire(ty, v), n))
        },
    }
}

/// `r` with `a` put before its values.
pub open spec fn prefix_with(a: Seq<ValueModel>, r: Option<(Seq<ValueModel>, nat)>) -> Option<
    (Seq<ValueModel>, nat),
> {
    match r {
        None => None,
        Some((vs, end)) => Some((a + vs, end)),
    }
}

/// Decodes values of the types `tys[k..]` one after the other from position
/// `pos` of `b`: the values and the position after the last.
pub open spec fn decode_fields_at(tys: Seq<EnumType>, b: Seq<u8>, k: nat, pos: nat) -> Option<
    (Seq<ValueModel>, nat),
>
    decreases tys.len() - k,
{
    if k >= tys.len() {
        Some((Seq::empty(), pos))
    } else {
        match decode_one(tys[k as int], b.skip(pos as int)) {
            None => None,
            Some((v, n)) => prefix_with(seq![v], decode_fields_at(tys, b, k + 1, pos + n)),
        }
    }
}

/// The types of the fields, in order.
pub open spec fn field_types(fs: Seq<(Seq<char>, EnumType)>) -> Seq<EnumType> {
    Seq::new(fs.len(), |i: int| fs[i].1)
}

/// Field names paired with decoded values.
pub open spec fn name_values(fs: Seq<(Seq<char>, EnumType)>, vs: Seq<ValueModel>) -> Seq<
    (Seq<char>, ValueModel),
> {
    Seq::new(vs.len(), |i: int| (fs[i].0, vs[i]))
}

/// Decoded arguments.
#[derive(Debug, Clone, PartialEq, Eq)]
pub struct Decoded {
    /// Each field's name and value, in wire order.
    pub values: Vec<(String, FieldValue)>,
    /// Bytes left over after the last field; not an error, but worth a
    /// warning.
    pub trailing: usize,
}

proof fn lemma_prefix_assoc(a: Seq<ValueModel>, v: ValueModel, r: Option<(Seq<ValueModel>, nat)>)
    ensures
        prefix_with(a, prefix_with(seq![v], r)) == prefix_with(a.push(v), r),
{
    match r {
        None => {},
        Some((vs, end)) => {
            assert(a + (seq![v] + vs) =~= a.push(v) + vs);
        },
    }
}

/// Decodes one value of type `ty` that starts at `pos`.
fn decode_value(ty: EnumType, bytes: &[u8], pos: usize) -> (r: Result<(FieldValue, usize), MessageError>)
    requires
        pos <= bytes@.len(),
    ensures
        match decode_one(ty, bytes@.skip(pos as int)) {
            None => r == Err::<(FieldValue, usize), MessageError>(MessageError::Truncated),
            Some((v, n)) => r matches Ok((x, end)) && x@ == v && end == pos + n,
        },
        r matches Ok((_, end)) ==> pos <= end <= bytes@.len(),
{
    let ghost b = bytes@.skip(pos as int);
    let (v, end) = match decode_varint(bytes, pos) {
        Ok(x) => x,
        Err(_) => {
            return Err(MessageError::Truncated);
        },
    };
    match ty {
        EnumType::U8 => Ok((FieldValue::U8(#[verifier::truncate] (v as u8)), end)),
        EnumType::U16 => Ok((FieldValue::U16(#[verifier::truncate] (v as u16)), end)),
        EnumType::U32 => Ok((FieldValue::U32(#[verifier::truncate] (v as u32)), end)),
        EnumType::I16 => Ok((FieldValue::I16(#[verifier::truncate] (v as i16)), end)),
        EnumType::I32 => Ok((FieldValue::I32(v), end)),
        EnumType::Bytes => {
            let len = #[verifier::truncate] (v as u32) as usize;
            if len > bytes.len() - end {
                return Err(MessageError::Truncated);
            }
            let data = vstd::slice::slice_to_vec(vstd::slice::slice_subrange(bytes, end, end + len));
            assert(data@ =~= b.subrange((end - pos) as int, (end - pos) + len));
            Ok((FieldValue::Bytes(data), end + len))
        },
    }
}

/// Decodes the arguments of a definition with `fields` from `bytes[start..]`.
pub fn decode_args(fields: &IndexMap<String, EnumType>, bytes: &[u8], start: usize) -> (r: Result<
    Decoded,
    MessageError,
>)
    requires
        start <= bytes@.len(),
    ensures
        match decode_fields_at(field_types(field_entries(*fields)), bytes@, 0, start as nat) {
            None => r == Err::<Decoded, MessageError>(MessageError::Truncated),
            Some((vs, end)) => r matches Ok(d) && named_view(d.values@) == name_values(
                field_entries(*fields),
                vs,
            ) && d.trailing == bytes@.len() - end,
        },
{
    let ghost fs = field_entries(*fields);
    let ghost tys = field_types(fs);
    let n = field_count(fields);
    let mut values: Vec<(String, FieldValue)> = Vec::new();
    let ghost mut got: Seq<ValueModel> = Seq::empty();
    let mut pos: usize = start;
    let mut k: usize = 0;
    assert(prefix_with(got, decode_fields_at(tys, bytes@, 0, start as nat)) == decode_fields_at(tys, bytes@, 0, start as nat)) by {
        match decode_fields_at(tys, bytes@, 0, start as nat) {
            None => {},
            Some((vs, end)) => { assert(got + vs =~= vs); },
        }
    }
    while k < n
        invariant
            fs == field_entries(*fields),
            tys == field_types(fs),
            n == fs.len(),
            k <= n,
            pos <= bytes@.len(),
            got.len() == k,
            named_view(values@) == name_values(fs, got),
            decode_fields_at(tys, bytes@, 0, start as nat) == prefix_with(got, decode_fields_at(tys, bytes@, k as nat, pos as nat)),
        decreases n - k,
    {
        let ty = match field_at(fields, k) {
            Some((_, t)) => *t,
            None => EnumType::Bytes,
        };
        let name = match field_at(fields, k) {
            Some((nm, _)) => nm.clone(),
            None => String::new(),
        };
        assert(tys[k as int] == ty);
        match decode_value(ty, bytes, pos) {
            Ok((v, end)) => {
                proof {
                    lemma_prefix_assoc(got, v@, decode_fields_at(tys, bytes@, (k + 1) as nat, end as nat));
                }
                let ghost before = named_view(values@);
                assert(name@ == fs[k as int].0);
                values.push((name, v));
                assert(named_view(values@) =~= before.push((fs[k as int].0, v@)));
                proof {
                    got = got.push(v@);
                }
                assert(named_view(values@) =~= name_values(fs, got));
                pos = end;
            },
            Err(e) => {
                return Err(e);
            },
        }
        k += 1;
    }
    assert(got + Seq::<ValueModel>::empty() =~= got);
    Ok(Decoded { values, trailing: bytes.len() - pos })
}

/// Decodes the arguments of a response from its body (the bytes after its id).
pub fn decode_response(def: &MessageDef, bytes: &[u8]) -> (r: Result<Decoded, MessageError>)
    ensures
        match decode_fields_at(field_types(field_entries(def.command.fields)), bytes@, 0, 0) {
            None => r == Err::<Decoded, MessageError>(MessageError::Truncated),
            Some((vs, end)) => r matches Ok(d) && named_view(d.values@) == name_values(
                field_entries(def.command.fields),
                vs,
            ) && d.trailing == bytes@.len() - end,
        },
{
    decode_args(&def.command.fields, bytes, 0)
}

/// Whether some response in `ms` has id `id`.
pub open spec fn has_id(ms: Seq<MessageDef>, id: u8) -> bool {
    exists|i: int| 0 <= i < ms.len() && (#[trigger] ms[i]).id == id
}

/// What a message payload decodes to: the response id, its named values
/// and the number of bytes left over.
pub open spec fn message_result(responses: Seq<MessageDef>, payload: Seq<u8>) -> Result<
    (u8, Seq<(Seq<char>, ValueModel)>, nat),
    MessageError,
> {
    match decode_spec(payload) {
        None => Err(MessageError::Truncated),
        Some((v, n)) => if v < 0 || v > 255 || !has_id(responses, v as u8) {
            Err(MessageError::NoSuchId(v))
        } else {
            let i = choose|i: int| 0 <= i < responses.len() && (#[trigger] responses[i]).id == v as u8;
            let fs = field_entries(responses[i].command.fields);
            match decode_fields_at(field_types(fs), payload, 0, n) {
                None => Err(MessageError::Truncated),
                Some((vs, end)) => Ok((v as u8, name_values(fs, vs), (payload.len() - end) as nat)),
            }
        },
    }
}

impl Registry {
    /// Decodes a message from the firmware: a response id, then the
    /// arguments of that response.
    pub fn decode_message(&self, payload: &[u8]) -> (r: Result<(u8, Decoded), MessageError>)
        requires
            distinct_messages(messages_view(self.responses@)),
        ensures
            match message_result(self.responses@, payload@) {
                Ok((id, vals, trailing)) => r matches Ok((x, d)) && x == id && named_view(d.values@)
                    == vals && d.trailing == trailing,
                Err(e) => r == Err::<(u8, Decoded), MessageError>(e),
            },
    {
        assert(payload@.skip(0) =~= payload@);
        let (v, pos) = match decode_varint(payload, 0) {
            Ok(x) => x,
            Err(_) => {
                return Err(MessageError::Truncated);
            },
        };
        if v < 0 || v > 255 {
            return Err(MessageError::NoSuchId(v));
        }
        let def = match self.lookup_response_by_id(v as u8) {
            Ok(d) => d,
            Err(_) => {
                return Err(MessageError::NoSuchId(v));
            },
        };
        let ghost i = choose|i: int| 0 <= i < self.responses@.len() && (#[trigger] self.responses@[i]).id == v as u8;
        proof {
            let j = choose|j: int| 0 <= j < self.responses@.len() && self.responses@[j] == *def;
            let mv = messages_view(self.responses@);
            assert(mv[i].0 == mv[j].0);
            assert(i == j);
        }
        match decode_args(&def.command.fields, payload, pos) {
            Ok(d) => Ok((v as u8, d)),
            Err(e) => Err(e),
        }
    }
}

/// The values of named values, in order.
pub open spec fn values_of(vs: Seq<(Seq<char>, ValueModel)>) -> Seq<ValueModel> {
    Seq::new(vs.len(), |i: int| vs[i].1)
}

proof fn lemma_encode_values_front(vs: Seq<(Seq<char>, ValueModel)>)
    requires
        vs.len() > 0,
    ensures
        encode_values(vs) == encode_value(vs[0].1) + encode_values(vs.skip(1)),
    decreases vs.len(),
{
    if vs.len() == 1 {
        assert(encode_values(vs.drop_last()) == Seq::<u8>::empty());
        assert(encode_values(vs.skip(1)) == Seq::<u8>::empty());
        assert(encode_values(vs) =~= encode_value(vs[0].1) + encode_values(vs.skip(1)));
    } else {
        lemma_encode_values_front(vs.drop_last());
        assert(vs.drop_last().skip(1) =~= vs.skip(1).drop_last());
        assert(vs.skip(1).last() == vs.last());
        assert(vs.drop_last()[0] == vs[0]);
        assert(encode_values(vs.skip(1)) == encode_values(vs.skip(1).drop_last()) + encode_value(
            vs.skip(1).last().1,
        ));
        assert(encode_values(vs) =~= encode_value(vs[0].1) + encode_values(vs.skip(1)));
    }
}

/// A value's bytes decode, as its own type, to the value.
proof fn lemma_decode_one(v: ValueModel, tail: Seq<u8>)
    requires
        v matches ValueModel::Bytes(b) ==> b.len() <= i32::MAX,
    ensures
        decode_one(value_type(v), encode_value(v) + tail) == Some((v, encode_value(v).len())),
{
    match v {
        ValueModel::Bytes(b) => {
            let len = b.len() as i32;
            lemma_varint_prefix(len, b + tail);
            assert(encode_value(v) + tail =~= encode_spec(len) + (b + tail));
            let e = encode_spec(len);
            assert((encode_value(v) + tail).subrange(e.len() as int, e.len() + b.len() as int) =~= b);
        },
        ValueModel::U32(x) => {
            lemma_varint_prefix(x as i32, tail);
            assert(((x as i32) as u32) == x) by (bit_vector);
        },
        _ => {
            lemma_varint_prefix(scalar_wire(v), tail);
        },
    }
}

proof fn lemma_decode_encoded_from(
    fs: Seq<(Seq<char>, EnumType)>,
    vs: Seq<(Seq<char>, ValueModel)>,
    b: Seq<u8>,
    k: nat,
    pos: nat,
)
    requires
        args_match(fs, vs),
        lengths_fit(vs),
        k <= vs.len(),
        pos + encode_values(vs.skip(k as int)).len() <= b.len(),
        b.subrange(pos as int, pos as int + encode_values(vs.skip(k as int)).len()) == encode_values(
            vs.skip(k as int),
        ),
    ensures
        decode_fields_at(field_types(fs), b, k, pos) == Some(
            (values_of(vs).skip(k as int), pos + encode_values(vs.skip(k as int)).len()),
        ),
    decreases vs.len() - k,
{
    let tys = field_types(fs);
    let rest = vs.skip(k as int);
    if k == vs.len() {
        assert(rest.len() == 0);
        assert(values_of(vs).skip(k as int) =~= Seq::<ValueModel>::empty());
    } else {
        lemma_encode_values_front(rest);
        assert(rest.skip(1) =~= vs.skip(k as int + 1));
        let v = vs[k as int].1;
        assert(rest[0] == vs[k as int]);
        let ev = encode_value(v);
        let after = encode_values(vs.skip(k as int + 1));
        let tail = b.skip(pos as int + ev.len());
        assert(b.skip(pos as int) =~= ev + tail) by {
            assert(b.subrange(pos as int, pos as int + ev.len()) =~= b.subrange(pos as int, pos as int + encode_values(rest).len()).subrange(0, ev.len() as int));
        }
        assert(vs[k as int] == vs[k as int] && fs[k as int] == fs[k as int]);
        assert(tys[k as int] == value_type(v));
        lemma_decode_one(v, tail);
        assert(b.subrange(pos as int + ev.len(), pos as int + ev.len() + after.len()) =~= b.subrange(pos as int, pos as int + encode_values(rest).len()).subrange(ev.len() as int, ev.len() + after.len() as int));
        assert(encode_values(rest) == ev + after);
        assert((ev + after).subrange(ev.len() as int, ev.len() + after.len() as int) =~= after);
        lemma_decode_encoded_from(fs, vs, b, k + 1, pos + ev.len());
        assert(seq![v] + values_of(vs).skip(k as int + 1) =~= values_of(vs).skip(k as int));
    }
}

/// Decoding the bytes of values that match the fields gives the values
/// back, in order, under the fields' names; whatever follows is left over.
pub proof fn lemma_args_round_trip(
    fs: Seq<(Seq<char>, EnumType)>,
    vs: Seq<(Seq<char>, ValueModel)>,
    tail: Seq<u8>,
)
    requires
        args_match(fs, vs),
        lengths_fit(vs),
    ensures
        decode_fields_at(field_types(fs), encode_values(vs) + tail, 0, 0) == Some(
            (values_of(vs), encode_values(vs).len()),
        ),
        name_values(fs, values_of(vs)) == vs,
{
    let b = encode_values(vs) + tail;
    assert(vs.skip(0) =~= vs);
    assert(b.subrange(0, encode_values(vs).len() as int) =~= encode_values(vs));
    lemma_decode_encoded_from(fs, vs, b, 0, 0);
    assert(values_of(vs).skip(0) =~= values_of(vs));
    assert(name_values(fs, values_of(vs)) =~= vs);
}

} // verus!
