use vstd::prelude::*;
use vstd::slice::{slice_subrange, slice_to_vec};

use crate::error::ProtobufError;
use crate::varint::{
    append_varint, decode_varint, lemma_decode_varint_prefix, lemma_varint_roundtrip,
    spec_decode_varint, varint_bytes, varint_end,
};

verus! {

/// Wire type of a varint field.
pub const WIRE_VARINT: u64 = 0;

/// Wire type of a length-delimited field.
pub const WIRE_BYTES: u64 = 2;

/// The key of a field: its number and wire type packed as one varint.
pub open spec fn tag_bytes(field: nat, wire: nat) -> Seq<u8> {
    varint_bytes(field * 8 + wire)
}

/// A varint field: its key, then the value.
pub open spec fn varint_field(field: nat, value: nat) -> Seq<u8> {
    tag_bytes(field, 0) + varint_bytes(value)
}

/// A length-delimited field: its key, the payload's length, the payload.
pub open spec fn bytes_field(field: nat, payload: Seq<u8>) -> Seq<u8> {
    tag_bytes(field, 2) + varint_bytes(payload.len()) + payload
}

/// The key at the front of `s`: field number, wire type, bytes taken.
pub open spec fn spec_decode_tag(s: Seq<u8>) -> Result<(u64, u64, nat), ProtobufError> {
    match spec_decode_varint(s) {
        Ok((v, n)) => Ok((v / 8, v % 8, n)),
        Err(e) => Err(e),
    }
}

/// A length-prefixed payload at the front of `s`, and the bytes taken.
pub open spec fn spec_decode_bytes(s: Seq<u8>) -> Result<(Seq<u8>, nat), ProtobufError> {
    match spec_decode_varint(s) {
        Ok((len, n)) => if n + len <= s.len() {
            Ok((s.subrange(n as int, n + len), (n + len) as nat))
        } else {
            Err(ProtobufError::TruncatedBytes)
        },
        Err(e) => Err(e),
    }
}

/// How many bytes the value of a field of wire type `wire` takes at the
/// front of `s`. The fixed widths are reported as they are, whether or not
/// that many bytes remain.
pub open spec fn spec_skip_field(s: Seq<u8>, wire: u64) -> Result<nat, ProtobufError> {
    if wire == 0 {
        match spec_decode_varint(s) {
            Ok((_, n)) => Ok(n),
            Err(e) => Err(e),
        }
    } else if wire == 2 {
        match spec_decode_varint(s) {
            Ok((len, n)) => if n + len <= s.len() {
                Ok((n + len) as nat)
            } else {
                Err(ProtobufError::TruncatedSkip)
            },
            Err(e) => Err(e),
        }
    } else if wire == 5 {
        Ok(4)
    } else if wire == 1 {
        Ok(8)
    } else {
        Err(ProtobufError::UnknownWireType(wire))
    }
}

/// The value of one field as a reader sees it.
pub enum FieldValue {
    Varint(u64),
    Bytes(Seq<u8>),
    /// A field whose value is stepped over unread.
    Skipped,
}

/// The result of reading one field.
pub enum FieldStep {
    /// Field number, value, and the bytes the whole field takes.
    Next(u64, FieldValue, nat),
    Fail(ProtobufError),
    /// A fixed-width field claims more bytes than remain.
    Overrun,
}

/// The result of reading a whole message.
pub enum Outcome<A> {
    Done(A),
    Fail(ProtobufError),
    /// A fixed-width field somewhere claims more bytes than remain.
    Overrun,
}

/// Reads the field at the front of `s`. Varint fields are always read;
/// length-delimited fields are read when their number is in `known` and
/// stepped over otherwise; other wire types are stepped over.
#[verifier::opaque]
pub open spec fn spec_read_field(s: Seq<u8>, known: Seq<u64>) -> FieldStep {
    match spec_decode_tag(s) {
        Err(e) => FieldStep::Fail(e),
        Ok((f, w, n)) => {
            let rest = s.skip(n as int);
            if w == 0 {
                match spec_decode_varint(rest) {
                    Ok((v, m)) => FieldStep::Next(f, FieldValue::Varint(v), n + m),
                    Err(e) => FieldStep::Fail(e),
                }
            } else if w == 2 && known.contains(f) {
                match spec_decode_bytes(rest) {
                    Ok((b, m)) => FieldStep::Next(f, FieldValue::Bytes(b), n + m),
                    Err(e) => FieldStep::Fail(e),
                }
            } else {
                match spec_skip_field(rest, w) {
                    Ok(m) => if m <= rest.len() {
                        FieldStep::Next(f, FieldValue::Skipped, n + m)
                    } else {
                        FieldStep::Overrun
                    },
                    Err(e) => FieldStep::Fail(e),
                }
            }
        },
    }
}

/// Reads the fields of `s` front to back, handing each to `step`, starting
/// from `acc`; stops at the first failure. A read always advances (see
/// `lemma_read_field_progress`), so the guard on `n` never stops it.
pub open spec fn fold_fields<A>(
    s: Seq<u8>,
    known: Seq<u64>,
    acc: A,
    step: spec_fn(A, u64, FieldValue) -> Outcome<A>,
) -> Outcome<A>
    decreases s.len(),
{
    if s.len() == 0 {
        Outcome::Done(acc)
    } else {
        match spec_read_field(s, known) {
            FieldStep::Next(f, v, n) => if 0 < n <= s.len() {
                match step(acc, f, v) {
                    Outcome::Done(a) => fold_fields(s.skip(n as int), known, a, step),
                    Outcome::Fail(e) => Outcome::Fail(e),
                    Outcome::Overrun => Outcome::Overrun,
                }
            } else {
                Outcome::Overrun
            },
            FieldStep::Fail(e) => Outcome::Fail(e),
            FieldStep::Overrun => Outcome::Overrun,
        }
    }
}

proof fn lemma_varint_end_bound(s: Seq<u8>, i: nat)
    ensures
        varint_end(s, i) matches Ok(n) ==> i < n <= s.len(),
    decreases s.len() - i,
{
    if i < s.len() && i < 10 && s[i as int] >= 128 {
        lemma_varint_end_bound(s, i + 1);
    }
}

/// A varint takes at least one byte and no more than there are.
pub proof fn lemma_decode_varint_bound(s: Seq<u8>)
    ensures
        spec_decode_varint(s) matches Ok((_, n)) ==> 0 < n <= s.len(),
{
    lemma_varint_end_bound(s, 0);
}

/// Reading a field takes at least one byte and no more than there are.
pub proof fn lemma_read_field_progress(s: Seq<u8>, known: Seq<u64>)
    ensures
        spec_read_field(s, known) matches FieldStep::Next(_, _, n) ==> 0 < n <= s.len(),
{
    reveal(spec_read_field);
    lemma_decode_varint_bound(s);
    if let Ok((f, w, n)) = spec_decode_tag(s) {
        lemma_decode_varint_bound(s.skip(n as int));
    }
}

/// A field value as read from a buffer.
pub enum WireValue {
    Varint(u64),
    Bytes(Vec<u8>),
    Skipped,
}

impl View for WireValue {
    type V = FieldValue;

    open spec fn view(&self) -> FieldValue {
        match self {
            WireValue::Varint(v) => FieldValue::Varint(*v),
            WireValue::Bytes(b) => FieldValue::Bytes(b@),
            WireValue::Skipped => FieldValue::Skipped,
        }
    }
}

/// Appends the key of field `field` with wire type `wtype`.
pub(crate) fn append_tag(buf: &mut Vec<u8>, field: u64, wtype: u64)
    requires
        field < 0x2000_0000_0000_0000,
        wtype < 8,
    ensures
        final(buf)@ == old(buf)@ + tag_bytes(field as nat, wtype as nat),
{
    assert(field < 0x2000_0000_0000_0000 && wtype < 8 ==> ((field << 3u64) | wtype) as int == field
        * 8 + wtype) by (bit_vector);
    append_varint(buf, (field << 3) | wtype);
}

/// Appends a varint field.
pub(crate) fn append_tag_varint(buf: &mut Vec<u8>, field: u64, v: u64)
    requires
        field < 0x2000_0000_0000_0000,
    ensures
        final(buf)@ == old(buf)@ + varint_field(field as nat, v as nat),
{
    append_tag(buf, field, WIRE_VARINT);
    append_varint(buf, v);
    assert(buf@ =~= old(buf)@ + varint_field(field as nat, v as nat));
}

/// Appends a length-delimited field.
pub(crate) fn append_tag_bytes(buf: &mut Vec<u8>, field: u64, data: &[u8])
    requires
        field < 0x2000_0000_0000_0000,
    ensures
        final(buf)@ == old(buf)@ + bytes_field(field as nat, data@),
{
    append_tag(buf, field, WIRE_BYTES);
    append_varint(buf, data.len() as u64);
    buf.extend_from_slice(data);
    assert(buf@ =~= old(buf)@ + bytes_field(field as nat, data@));
}

/// Reads a key: field number, wire type, and the bytes it takes.
pub fn decode_tag(data: &[u8]) -> (r: Result<(u64, u64, usize), ProtobufError>)
    ensures
        match r {
            Ok((f, w, n)) => spec_decode_tag(data@) == Ok::<(u64, u64, nat), ProtobufError>(
                (f, w, n as nat),
            ),
            Err(e) => spec_decode_tag(data@) == Err::<(u64, u64, nat), ProtobufError>(e),
        },
{
    match decode_varint(data) {
        Ok((v, n)) => {
            assert(v >> 3u64 == v / 8 && v & 7u64 == v % 8) by (bit_vector);
            Ok((v >> 3, v & 7, n))
        },
        Err(e) => Err(e),
    }
}

/// Reads a length-prefixed payload and the bytes it takes.
pub fn decode_bytes(data: &[u8]) -> (r: Result<(Vec<u8>, usize), ProtobufError>)
    ensures
        match r {
            Ok((b, n)) => spec_decode_bytes(data@) == Ok::<(Seq<u8>, nat), ProtobufError>(
                (b@, n as nat),
            ),
            Err(e) => spec_decode_bytes(data@) == Err::<(Seq<u8>, nat), ProtobufError>(e),
        },
{
    match decode_varint(data) {
        Ok((len, n)) => {
            proof {
                lemma_decode_varint_bound(data@);
            }
            if ((data.len() - n) as u64) < len {
                return Err(ProtobufError::TruncatedBytes);
            }
            let end = n + len as usize;
            Ok((slice_to_vec(slice_subrange(data, n, end)), end))
        },
        Err(e) => Err(e),
    }
}

/// The number of bytes the value of a field of wire type `wtype` takes.
pub fn skip_field(data: &[u8], wtype: u64) -> (r: Result<usize, ProtobufError>)
    ensures
        match r {
            Ok(n) => spec_skip_field(data@, wtype) == Ok::<nat, ProtobufError>(n as nat),
            Err(e) => spec_skip_field(data@, wtype) == Err::<nat, ProtobufError>(e),
        },
{
    if wtype == WIRE_VARINT {
        match decode_varint(data) {
            Ok((_, n)) => Ok(n),
            Err(e) => Err(e),
        }
    } else if wtype == WIRE_BYTES {
        match decode_varint(data) {
            Ok((len, n)) => {
                proof {
                    lemma_decode_varint_bound(data@);
                }
                if ((data.len() - n) as u64) < len {
                    return Err(ProtobufError::TruncatedSkip);
                }
                Ok(n + len as usize)
            },
            Err(e) => Err(e),
        }
    } else if wtype == 5 {
        Ok(4)
    } else if wtype == 1 {
        Ok(8)
    } else {
        Err(ProtobufError::UnknownWireType(wtype))
    }
}

fn contains_field(known: &[u64], field: u64) -> (r: bool)
    ensures
        r == known@.contains(field),
{
    let mut i: usize = 0;
    while i < known.len()
        invariant
            i <= known.len(),
            forall|j: int| 0 <= j < i ==> known@[j] != field,
        decreases known.len() - i,
    {
        if known[i] == field {
            return true;
        }
        i += 1;
    }
    false
}

/// The outcome of reading one field, as the decoders see it.
pub enum ReadField {
    /// Field number, value, and the bytes the whole field takes.
    Next(u64, WireValue, usize),
    Fail(ProtobufError),
    /// A fixed-width field claims more bytes than remain.
    Overrun,
}

/// The outcome of decoding a message.
pub enum Decoded<T> {
    Done(T),
    Fail(ProtobufError),
    /// A fixed-width field somewhere claims more bytes than remain.
    Overrun,
}

/// Reads the field at the front of `data`, as `spec_read_field` says.
pub fn read_field(data: &[u8], known: &[u64]) -> (r: ReadField)
    ensures
        match r {
            ReadField::Next(f, v, n) => spec_read_field(data@, known@) == FieldStep::Next(
                f,
                v@,
                n as nat,
            ),
            ReadField::Fail(e) => spec_read_field(data@, known@) == FieldStep::Fail(e),
            ReadField::Overrun => spec_read_field(data@, known@) is Overrun,
        },
{
    proof {
        reveal(spec_read_field);
    }
    let (field, wtype, n) = match decode_tag(data) {
        Ok(t) => t,
        Err(e) => return ReadField::Fail(e),
    };
    proof {
        lemma_decode_varint_bound(data@);
    }
    let rest = slice_subrange(data, n, data.len());
    assert(rest@ =~= data@.skip(n as int));
    proof {
        lemma_decode_varint_bound(rest@);
    }
    if wtype == WIRE_VARINT {
        match decode_varint(rest) {
            Ok((v, m)) => ReadField::Next(field, WireValue::Varint(v), n + m),
            Err(e) => ReadField::Fail(e),
        }
    } else if wtype == WIRE_BYTES && contains_field(known, field) {
        match decode_bytes(rest) {
            Ok((b, m)) => ReadField::Next(field, WireValue::Bytes(b), n + m),
            Err(e) => ReadField::Fail(e),
        }
    } else {
        match skip_field(rest, wtype) {
            Ok(m) => if m <= rest.len() {
                ReadField::Next(field, WireValue::Skipped, n + m)
            } else {
                ReadField::Overrun
            },
            Err(e) => ReadField::Fail(e),
        }
    }
}

/// Reading a varint field back gives its number and value, whatever follows.
pub proof fn lemma_read_varint_field(field: u64, value: u64, rest: Seq<u8>, known: Seq<u64>)
    requires
        field < 0x2000_0000_0000_0000,
    ensures
        spec_read_field(varint_field(field as nat, value as nat) + rest, known) == FieldStep::Next(
            field,
            FieldValue::Varint(value),
            varint_field(field as nat, value as nat).len(),
        ),
{
    reveal(spec_read_field);
    let t = (field * 8) as u64;
    let key = tag_bytes(field as nat, 0);
    let body = varint_bytes(value as nat);
    let s = varint_field(field as nat, value as nat) + rest;
    assert(s =~= key + (body + rest));
    lemma_varint_roundtrip(t, body + rest);
    assert(t / 8 == field && t % 8 == 0) by (nonlinear_arith)
        requires
            t == field * 8,
    ;
    assert(s.skip(key.len() as int) =~= body + rest);
    lemma_varint_roundtrip(value, rest);
}

/// Reading a length-delimited field of a known number back gives its
/// number and payload, whatever follows.
pub proof fn lemma_read_bytes_field(field: u64, payload: Seq<u8>, rest: Seq<u8>, known: Seq<u64>)
    requires
        field < 0x2000_0000_0000_0000,
        payload.len() <= u64::MAX,
        known.contains(field),
    ensures
        spec_read_field(bytes_field(field as nat, payload) + rest, known) == FieldStep::Next(
            field,
            FieldValue::Bytes(payload),
            bytes_field(field as nat, payload).len(),
        ),
{
    reveal(spec_read_field);
    let t = (field * 8 + 2) as u64;
    let key = tag_bytes(field as nat, 2);
    let len = varint_bytes(payload.len());
    let s = bytes_field(field as nat, payload) + rest;
    assert(s =~= key + (len + payload + rest));
    lemma_varint_roundtrip(t, len + payload + rest);
    assert(t / 8 == field && t % 8 == 2) by (nonlinear_arith)
        requires
            t == field * 8 + 2,
    ;
    let after = s.skip(key.len() as int);
    assert(after =~= len + (payload + rest));
    lemma_varint_roundtrip(payload.len() as u64, payload + rest);
    assert(after.subrange(len.len() as int, (len.len() + payload.len()) as int) =~= payload);
}

/// Reading a message that starts with a whole field hands that field to
/// `step` and goes on with what follows.
pub proof fn lemma_fold_front<A>(
    head: Seq<u8>,
    rest: Seq<u8>,
    known: Seq<u64>,
    acc: A,
    step: spec_fn(A, u64, FieldValue) -> Outcome<A>,
    field: u64,
    value: FieldValue,
)
    requires
        head.len() > 0,
        spec_read_field(head + rest, known) == FieldStep::Next(field, value, head.len()),
    ensures
        fold_fields(head + rest, known, acc, step) == match step(acc, field, value) {
            Outcome::Done(a) => fold_fields(rest, known, a, step),
            Outcome::Fail(e) => Outcome::Fail(e),
            Outcome::Overrun => Outcome::Overrun,
        },
{
    assert((head + rest).skip(head.len() as int) =~= rest);
}

/// A field is read the same whatever follows it.
pub proof fn lemma_read_field_prefix(s: Seq<u8>, t: Seq<u8>, known: Seq<u64>)
    requires
        spec_read_field(s, known) is Next,
    ensures
        spec_read_field(s + t, known) == spec_read_field(s, known),
{
    reveal(spec_read_field);
    lemma_decode_varint_bound(s);
    lemma_decode_varint_prefix(s, t);
    let (f, w, n) = spec_decode_tag(s)->Ok_0;
    let rest = s.skip(n as int);
    assert((s + t).skip(n as int) =~= rest + t);
    lemma_decode_varint_bound(rest);
    if spec_decode_varint(rest) is Ok {
        lemma_decode_varint_prefix(rest, t);
        let (len, m) = spec_decode_varint(rest)->Ok_0;
        if m + len <= rest.len() {
            assert((rest + t).subrange(m as int, m + len) =~= rest.subrange(m as int, m + len));
        }
    }
}

/// Reading a message whose first part reads through is reading the rest
/// from where the first part left off.
pub proof fn lemma_fold_concat<A>(
    a: Seq<u8>,
    b: Seq<u8>,
    known: Seq<u64>,
    acc: A,
    step: spec_fn(A, u64, FieldValue) -> Outcome<A>,
)
    requires
        fold_fields(a, known, acc, step) is Done,
    ensures
        fold_fields(a + b, known, acc, step) == fold_fields(
            b,
            known,
            fold_fields(a, known, acc, step)->Done_0,
            step,
        ),
    decreases a.len(),
{
    if a.len() == 0 {
        assert(a + b =~= b);
    } else {
        let f = spec_read_field(a, known)->Next_0;
        let v = spec_read_field(a, known)->Next_1;
        let n = spec_read_field(a, known)->Next_2;
        lemma_read_field_prefix(a, b, known);
        assert((a + b).skip(n as int) =~= a.skip(n as int) + b);
        let a1 = step(acc, f, v)->Done_0;
        lemma_fold_concat(a.skip(n as int), b, known, a1, step);
    }
}

/// `o` with `p` put in front of what it holds.
pub open spec fn prepend_outcome<T>(p: Seq<T>, o: Outcome<Seq<T>>) -> Outcome<Seq<T>> {
    match o {
        Outcome::Done(q) => Outcome::Done(p + q),
        Outcome::Fail(e) => Outcome::Fail(e),
        Outcome::Overrun => Outcome::Overrun,
    }
}

/// A step that appends to a list, whatever the list already holds.
pub open spec fn appends<T>(step: spec_fn(Seq<T>, u64, FieldValue) -> Outcome<Seq<T>>) -> bool {
    forall|p: Seq<T>, q: Seq<T>, f: u64, v: FieldValue|
        #[trigger] step(p + q, f, v) == prepend_outcome(p, step(q, f, v))
}

/// Reading a list from a longer start gives the longer start in front.
pub proof fn lemma_fold_prepend<T>(
    s: Seq<u8>,
    known: Seq<u64>,
    p: Seq<T>,
    q: Seq<T>,
    step: spec_fn(Seq<T>, u64, FieldValue) -> Outcome<Seq<T>>,
)
    requires
        appends(step),
    ensures
        fold_fields(s, known, p + q, step) == prepend_outcome(p, fold_fields(s, known, q, step)),
    decreases s.len(),
{
    if s.len() > 0 {
        if let FieldStep::Next(f, v, n) = spec_read_field(s, known) {
            if 0 < n <= s.len() {
                assert(step(p + q, f, v) == prepend_outcome(p, step(q, f, v)));
                if let Outcome::Done(q1) = step(q, f, v) {
                    lemma_fold_prepend(s.skip(n as int), known, p, q1, step);
                }
            }
        }
    }
}

} // verus!
