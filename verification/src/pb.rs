//! Hand-rolled protobuf codecs matching upstream mobile-shell/mosh field numbers.
//!
//! Width/height are proto2 `int32` encoded as varints (not zigzag), matching mosh-go.

use vstd::prelude::*;
use vstd::slice::slice_subrange;

use crate::error::ProtobufError;
use crate::wire::{
    append_tag_bytes, append_tag_varint, bytes_field, fold_fields, lemma_read_field_progress,
    read_field, varint_field, Decoded, FieldValue, Outcome, ReadField, WireValue,
};

verus! {

/// Outer transport wrapper (`TransportBuffers.Instruction`).
#[derive(Debug, Clone, PartialEq, Eq)]
pub struct TransportInstruction {
    pub protocol_version: u32,
    pub old_num: u64,
    pub new_num: u64,
    pub ack_num: u64,
    pub throwaway_num: u64,
    pub diff: Vec<u8>,
    pub chaff: Vec<u8>,
}

/// One host-side instruction (`HostBuffers.Instruction` extensions).
#[derive(Debug, Clone, PartialEq, Eq)]
pub struct HostInstruction {
    pub hoststring: Vec<u8>,
    pub width: i32,
    pub height: i32,
    /// -1 means absent.
    pub echo_ack_num: i64,
}

/// One client-side instruction (`ClientBuffers.Instruction` extensions).
#[derive(Debug, Clone, PartialEq, Eq)]
pub struct UserInstruction {
    pub keys: Vec<u8>,
    pub width: i32,
    pub height: i32,
}

/// What a `TransportInstruction` holds, byte strings as sequences.
pub struct TransportModel {
    pub protocol_version: u32,
    pub old_num: u64,
    pub new_num: u64,
    pub ack_num: u64,
    pub throwaway_num: u64,
    pub diff: Seq<u8>,
    pub chaff: Seq<u8>,
}

/// What a `HostInstruction` holds.
pub struct HostModel {
    pub hoststring: Seq<u8>,
    pub width: i32,
    pub height: i32,
    pub echo_ack_num: i64,
}

/// What a `UserInstruction` holds.
pub struct UserModel {
    pub keys: Seq<u8>,
    pub width: i32,
    pub height: i32,
}

impl View for TransportInstruction {
    type V = TransportModel;

    open spec fn view(&self) -> TransportModel {
        TransportModel {
            protocol_version: self.protocol_version,
            old_num: self.old_num,
            new_num: self.new_num,
            ack_num: self.ack_num,
            throwaway_num: self.throwaway_num,
            diff: self.diff@,
            chaff: self.chaff@,
        }
    }
}

impl View for HostInstruction {
    type V = HostModel;

    open spec fn view(&self) -> HostModel {
        HostModel {
            hoststring: self.hoststring@,
            width: self.width,
            height: self.height,
            echo_ack_num: self.echo_ack_num,
        }
    }
}

impl View for UserInstruction {
    type V = UserModel;

    open spec fn view(&self) -> UserModel {
        UserModel { keys: self.keys@, width: self.width, height: self.height }
    }
}

/// The all-zero transport instruction with empty byte strings.
pub open spec fn empty_transport() -> TransportModel {
    TransportModel {
        protocol_version: 0,
        old_num: 0,
        new_num: 0,
        ack_num: 0,
        throwaway_num: 0,
        diff: Seq::empty(),
        chaff: Seq::empty(),
    }
}

/// The all-zero host instruction (its echo ack number too).
pub open spec fn empty_host() -> HostModel {
    HostModel { hoststring: Seq::empty(), width: 0, height: 0, echo_ack_num: 0 }
}

/// The host instruction that decoding starts from: no echo ack (-1).
pub open spec fn blank_host() -> HostModel {
    HostModel { hoststring: Seq::empty(), width: 0, height: 0, echo_ack_num: -1i64 }
}

/// The empty user instruction.
pub open spec fn empty_user() -> UserModel {
    UserModel { keys: Seq::empty(), width: 0, height: 0 }
}

/// The models of a sequence of user instructions.
pub open spec fn user_models(xs: Seq<UserInstruction>) -> Seq<UserModel> {
    xs.map_values(|u: UserInstruction| u@)
}

/// The models of a sequence of host instructions.
pub open spec fn host_models(xs: Seq<HostInstruction>) -> Seq<HostModel> {
    xs.map_values(|h: HostInstruction| h@)
}

impl Default for TransportInstruction {
    fn default() -> (r: Self)
        ensures
            r@ == empty_transport(),
    {
        TransportInstruction {
            protocol_version: 0,
            old_num: 0,
            new_num: 0,
            ack_num: 0,
            throwaway_num: 0,
            diff: Vec::new(),
            chaff: Vec::new(),
        }
    }
}

impl Default for HostInstruction {
    fn default() -> (r: Self)
        ensures
            r@ == empty_host(),
    {
        HostInstruction { hoststring: Vec::new(), width: 0, height: 0, echo_ack_num: 0 }
    }
}

impl Default for UserInstruction {
    fn default() -> (r: Self)
        ensures
            r@ == empty_user(),
    {
        UserInstruction { keys: Vec::new(), width: 0, height: 0 }
    }
}

// ---------------------------------------------------------------- encoding

/// `field` when `present`, nothing otherwise.
pub open spec fn optional(present: bool, field: Seq<u8>) -> Seq<u8> {
    if present {
        field
    } else {
        Seq::empty()
    }
}

/// The wire form of a transport instruction: the protocol version when it
/// is not 0, the four sequence numbers always, then diff and chaff when
/// they are not empty.
pub open spec fn transport_encoding(m: TransportModel) -> Seq<u8> {
    optional(m.protocol_version != 0, varint_field(1, m.protocol_version as nat))
        + varint_field(2, m.old_num as nat)
        + varint_field(3, m.new_num as nat)
        + varint_field(4, m.ack_num as nat)
        + varint_field(5, m.throwaway_num as nat)
        + optional(m.diff.len() > 0, bytes_field(6, m.diff))
        + optional(m.chaff.len() > 0, bytes_field(7, m.chaff))
}

/// A `ResizeMessage`: width in field 5 and height in field 6, each as the
/// varint of its 32-bit two's complement.
pub open spec fn resize_encoding(width: i32, height: i32) -> Seq<u8> {
    varint_field(5, (width as u32) as nat) + varint_field(6, (height as u32) as nat)
}

/// Whether a resize is sent: when either dimension is positive.
pub open spec fn has_resize(width: i32, height: i32) -> bool {
    width > 0 || height > 0
}

/// The wire form of one user instruction: a `Keystroke` (field 2, keys in
/// its field 4) when there are keys, a `ResizeMessage` (field 3) when
/// either dimension is positive.
pub open spec fn user_instruction_encoding(u: UserModel) -> Seq<u8> {
    optional(u.keys.len() > 0, bytes_field(2, bytes_field(4, u.keys))) + optional(
        has_resize(u.width, u.height),
        bytes_field(3, resize_encoding(u.width, u.height)),
    )
}

/// The wire form of one host instruction: `HostBytes` (field 2, the
/// string in its field 4) when not empty, a `ResizeMessage` (field 3) when
/// either dimension is positive, an `EchoAck` (field 7, the number in its
/// field 8) when the number is not negative.
pub open spec fn host_instruction_encoding(h: HostModel) -> Seq<u8> {
    optional(h.hoststring.len() > 0, bytes_field(2, bytes_field(4, h.hoststring)))
        + optional(has_resize(h.width, h.height), bytes_field(3, resize_encoding(h.width, h.height)))
        + optional(h.echo_ack_num >= 0, bytes_field(7, varint_field(8, h.echo_ack_num as nat)))
}

/// Each element, encoded by `enc`, as a field 1 of its own, in order.
pub open spec fn repeated_field<T>(xs: Seq<T>, enc: spec_fn(T) -> Seq<u8>) -> Seq<u8>
    decreases xs.len(),
{
    if xs.len() == 0 {
        Seq::empty()
    } else {
        bytes_field(1, enc(xs[0])) + repeated_field(xs.drop_first(), enc)
    }
}

/// A `UserMessage`: each instruction as a field 1.
pub open spec fn user_message_encoding(xs: Seq<UserModel>) -> Seq<u8> {
    repeated_field(xs, |u: UserModel| user_instruction_encoding(u))
}

/// A `HostMessage`: each instruction as a field 1.
pub open spec fn host_message_encoding(xs: Seq<HostModel>) -> Seq<u8> {
    repeated_field(xs, |h: HostModel| host_instruction_encoding(h))
}

proof fn lemma_repeated_field_push<T>(xs: Seq<T>, x: T, enc: spec_fn(T) -> Seq<u8>)
    ensures
        repeated_field(xs.push(x), enc) == repeated_field(xs, enc) + bytes_field(1, enc(x)),
    decreases xs.len(),
{
    if xs.len() == 0 {
        assert(xs.push(x).drop_first() =~= Seq::<T>::empty());
        assert(xs.push(x)[0] == x);
        assert(repeated_field(Seq::<T>::empty(), enc) == Seq::<u8>::empty());
        assert(repeated_field(xs.push(x), enc) =~= bytes_field(1, enc(x)));
    } else {
        assert(xs.push(x).drop_first() =~= xs.drop_first().push(x));
        lemma_repeated_field_push(xs.drop_first(), x, enc);
        assert(xs.push(x)[0] == xs[0]);
        assert(repeated_field(xs.push(x), enc) =~= repeated_field(xs, enc) + bytes_field(1, enc(x)));
    }
}

// ---------------------------------------------------------------- decoding

/// Transport fields read as bytes: diff (6) and chaff (7).
pub open spec fn transport_known() -> Seq<u64> {
    seq![6, 7]
}

/// One transport field: varint fields 1 to 5 set the version (keeping its
/// low 32 bits) and the four sequence numbers, byte fields 6 and 7 set diff
/// and chaff; anything else leaves the instruction as it is.
pub open spec fn transport_step(m: TransportModel, f: u64, v: FieldValue) -> Outcome<TransportModel> {
    Outcome::Done(
        match v {
            FieldValue::Varint(x) => if f == 1 {
                TransportModel { protocol_version: x as u32, ..m }
            } else if f == 2 {
                TransportModel { old_num: x, ..m }
            } else if f == 3 {
                TransportModel { new_num: x, ..m }
            } else if f == 4 {
                TransportModel { ack_num: x, ..m }
            } else if f == 5 {
                TransportModel { throwaway_num: x, ..m }
            } else {
                m
            },
            FieldValue::Bytes(b) => if f == 6 {
                TransportModel { diff: b, ..m }
            } else if f == 7 {
                TransportModel { chaff: b, ..m }
            } else {
                m
            },
            FieldValue::Skipped => m,
        },
    )
}

/// `transport_step` as a function value, for `fold_fields`.
pub open spec fn transport_stepper() -> spec_fn(TransportModel, u64, FieldValue) -> Outcome<
    TransportModel,
> {
    |m: TransportModel, f: u64, v: FieldValue| transport_step(m, f, v)
}

/// Decoding a transport instruction: its fields applied in order to the
/// empty instruction.
pub open spec fn transport_decoding(s: Seq<u8>) -> Outcome<TransportModel> {
    fold_fields(s, transport_known(), empty_transport(), transport_stepper())
}

/// `Keystroke` fields read as bytes: keys (4).
pub open spec fn keystroke_known() -> Seq<u64> {
    seq![4]
}

/// One `Keystroke` field: each field 4 adds its bytes to the keys.
pub open spec fn keystroke_step(keys: Seq<u8>, f: u64, v: FieldValue) -> Outcome<Seq<u8>> {
    Outcome::Done(
        match v {
            FieldValue::Bytes(b) => if f == 4 {
                keys + b
            } else {
                keys
            },
            _ => keys,
        },
    )
}

/// `keystroke_step` as a function value, for `fold_fields`.
pub open spec fn keystroke_stepper() -> spec_fn(Seq<u8>, u64, FieldValue) -> Outcome<Seq<u8>> {
    |k: Seq<u8>, f: u64, v: FieldValue| keystroke_step(k, f, v)
}

/// `ResizeMessage` reads no field as bytes.
pub open spec fn resize_known() -> Seq<u64> {
    Seq::empty()
}

/// One `ResizeMessage` field: varint 5 sets the width, varint 6 the height,
/// each as the low 32 bits of the value.
pub open spec fn resize_step(wh: (i32, i32), f: u64, v: FieldValue) -> Outcome<(i32, i32)> {
    Outcome::Done(
        match v {
            FieldValue::Varint(x) => if f == 5 {
                (x as i32, wh.1)
            } else if f == 6 {
                (wh.0, x as i32)
            } else {
                wh
            },
            _ => wh,
        },
    )
}

/// `resize_step` as a function value, for `fold_fields`.
pub open spec fn resize_stepper() -> spec_fn((i32, i32), u64, FieldValue) -> Outcome<(i32, i32)> {
    |wh: (i32, i32), f: u64, v: FieldValue| resize_step(wh, f, v)
}

/// Decoding a `ResizeMessage` from the dimensions already held.
pub open spec fn resize_decoding(s: Seq<u8>, wh: (i32, i32)) -> Outcome<(i32, i32)> {
    fold_fields(s, resize_known(), wh, resize_stepper())
}

/// Decoding a `Keystroke`, adding to the keys already held.
pub open spec fn keystroke_decoding(s: Seq<u8>, keys: Seq<u8>) -> Outcome<Seq<u8>> {
    fold_fields(s, keystroke_known(), keys, keystroke_stepper())
}

/// User instruction fields read as bytes: keystroke (2), resize (3).
pub open spec fn user_known() -> Seq<u64> {
    seq![2, 3]
}

/// One user instruction field: a keystroke adds keys, a resize sets the
/// dimensions; a failure inside either is the instruction's failure.
pub open spec fn user_step(m: UserModel, f: u64, v: FieldValue) -> Outcome<UserModel> {
    match v {
        FieldValue::Bytes(b) => if f == 2 {
            match keystroke_decoding(b, m.keys) {
                Outcome::Done(k) => Outcome::Done(UserModel { keys: k, ..m }),
                Outcome::Fail(e) => Outcome::Fail(e),
                Outcome::Overrun => Outcome::Overrun,
            }
        } else if f == 3 {
            match resize_decoding(b, (m.width, m.height)) {
                Outcome::Done(wh) => Outcome::Done(UserModel { width: wh.0, height: wh.1, ..m }),
                Outcome::Fail(e) => Outcome::Fail(e),
                Outcome::Overrun => Outcome::Overrun,
            }
        } else {
            Outcome::Done(m)
        },
        _ => Outcome::Done(m),
    }
}

/// `user_step` as a function value, for `fold_fields`.
pub open spec fn user_stepper() -> spec_fn(UserModel, u64, FieldValue) -> Outcome<UserModel> {
    |m: UserModel, f: u64, v: FieldValue| user_step(m, f, v)
}

/// Decoding one user instruction from the empty one.
pub open spec fn user_instruction_decoding(s: Seq<u8>) -> Outcome<UserModel> {
    fold_fields(s, user_known(), empty_user(), user_stepper())
}

/// Message fields read as bytes: instruction (1).
pub open spec fn message_known() -> Seq<u64> {
    seq![1]
}

/// One `UserMessage` field: each field 1 is decoded as an instruction and
/// appended.
pub open spec fn user_message_step(xs: Seq<UserModel>, f: u64, v: FieldValue) -> Outcome<
    Seq<UserModel>,
> {
    match v {
        FieldValue::Bytes(b) => if f == 1 {
            match user_instruction_decoding(b) {
                Outcome::Done(u) => Outcome::Done(xs.push(u)),
                Outcome::Fail(e) => Outcome::Fail(e),
                Outcome::Overrun => Outcome::Overrun,
            }
        } else {
            Outcome::Done(xs)
        },
        _ => Outcome::Done(xs),
    }
}

/// `user_message_step` as a function value, for `fold_fields`.
pub open spec fn user_message_stepper() -> spec_fn(Seq<UserModel>, u64, FieldValue) -> Outcome<
    Seq<UserModel>,
> {
    |xs: Seq<UserModel>, f: u64, v: FieldValue| user_message_step(xs, f, v)
}

/// Decoding a `UserMessage`.
pub open spec fn user_message_decoding(s: Seq<u8>) -> Outcome<Seq<UserModel>> {
    fold_fields(s, message_known(), Seq::empty(), user_message_stepper())
}

/// `HostBytes` fields read as bytes: hoststring (4).
pub open spec fn host_bytes_known() -> Seq<u64> {
    seq![4]
}

/// One `HostBytes` field: each field 4 replaces the host string.
pub open spec fn host_bytes_step(hs: Seq<u8>, f: u64, v: FieldValue) -> Outcome<Seq<u8>> {
    Outcome::Done(
        match v {
            FieldValue::Bytes(b) => if f == 4 {
                b
            } else {
                hs
            },
            _ => hs,
        },
    )
}

/// `host_bytes_step` as a function value, for `fold_fields`.
pub open spec fn host_bytes_stepper() -> spec_fn(Seq<u8>, u64, FieldValue) -> Outcome<Seq<u8>> {
    |hs: Seq<u8>, f: u64, v: FieldValue| host_bytes_step(hs, f, v)
}

/// Decoding a `HostBytes` from the host string already held.
pub open spec fn host_bytes_decoding(s: Seq<u8>, hs: Seq<u8>) -> Outcome<Seq<u8>> {
    fold_fields(s, host_bytes_known(), hs, host_bytes_stepper())
}

/// `EchoAck` reads no field as bytes.
pub open spec fn echo_known() -> Seq<u64> {
    Seq::empty()
}

/// One `EchoAck` field: varint 8 sets the echo ack number (as a 64-bit
/// two's complement).
pub open spec fn echo_step(e: i64, f: u64, v: FieldValue) -> Outcome<i64> {
    Outcome::Done(
        match v {
            FieldValue::Varint(x) => if f == 8 {
                x as i64
            } else {
                e
            },
            _ => e,
        },
    )
}

/// `echo_step` as a function value, for `fold_fields`.
pub open spec fn echo_stepper() -> spec_fn(i64, u64, FieldValue) -> Outcome<i64> {
    |e: i64, f: u64, v: FieldValue| echo_step(e, f, v)
}

/// Decoding an `EchoAck` from the number already held.
pub open spec fn echo_decoding(s: Seq<u8>, e: i64) -> Outcome<i64> {
    fold_fields(s, echo_known(), e, echo_stepper())
}

/// Host instruction fields read as bytes: host bytes (2), resize (3),
/// echo ack (7).
pub open spec fn host_known() -> Seq<u64> {
    seq![2, 3, 7]
}

/// One host instruction field.
pub open spec fn host_step(m: HostModel, f: u64, v: FieldValue) -> Outcome<HostModel> {
    match v {
        FieldValue::Bytes(b) => if f == 2 {
            match host_bytes_decoding(b, m.hoststring) {
                Outcome::Done(hs) => Outcome::Done(HostModel { hoststring: hs, ..m }),
                Outcome::Fail(e) => Outcome::Fail(e),
                Outcome::Overrun => Outcome::Overrun,
            }
        } else if f == 3 {
            match resize_decoding(b, (m.width, m.height)) {
                Outcome::Done(wh) => Outcome::Done(HostModel { width: wh.0, height: wh.1, ..m }),
                Outcome::Fail(e) => Outcome::Fail(e),
                Outcome::Overrun => Outcome::Overrun,
            }
        } else if f == 7 {
            match echo_decoding(b, m.echo_ack_num) {
                Outcome::Done(n) => Outcome::Done(HostModel { echo_ack_num: n, ..m }),
                Outcome::Fail(e) => Outcome::Fail(e),
                Outcome::Overrun => Outcome::Overrun,
            }
        } else {
            Outcome::Done(m)
        },
        _ => Outcome::Done(m),
    }
}

/// `host_step` as a function value, for `fold_fields`.
pub open spec fn host_stepper() -> spec_fn(HostModel, u64, FieldValue) -> Outcome<HostModel> {
    |m: HostModel, f: u64, v: FieldValue| host_step(m, f, v)
}

/// Decoding one host instruction from the blank one (no echo ack).
pub open spec fn host_instruction_decoding(s: Seq<u8>) -> Outcome<HostModel> {
    fold_fields(s, host_known(), blank_host(), host_stepper())
}

/// One `HostMessage` field: each field 1 is decoded as an instruction and
/// appended.
pub open spec fn host_message_step(xs: Seq<HostModel>, f: u64, v: FieldValue) -> Outcome<
    Seq<HostModel>,
> {
    match v {
        FieldValue::Bytes(b) => if f == 1 {
            match host_instruction_decoding(b) {
                Outcome::Done(h) => Outcome::Done(xs.push(h)),
                Outcome::Fail(e) => Outcome::Fail(e),
                Outcome::Overrun => Outcome::Overrun,
            }
        } else {
            Outcome::Done(xs)
        },
        _ => Outcome::Done(xs),
    }
}

/// `host_message_step` as a function value, for `fold_fields`.
pub open spec fn host_message_stepper() -> spec_fn(Seq<HostModel>, u64, FieldValue) -> Outcome<
    Seq<HostModel>,
> {
    |xs: Seq<HostModel>, f: u64, v: FieldValue| host_message_step(xs, f, v)
}

/// Decoding a `HostMessage`.
pub open spec fn host_message_decoding(s: Seq<u8>) -> Outcome<Seq<HostModel>> {
    fold_fields(s, message_known(), Seq::empty(), host_message_stepper())
}

// ---------------------------------------------------------------- exec

impl TransportInstruction {
    /// Encode like mosh-go: always emit old/new/ack/throwaway fields.
    pub fn encode(&self) -> (b: Vec<u8>)
        ensures
            b@ == transport_encoding(self@),
    {
        let mut b = Vec::new();
        if self.protocol_version != 0 {
            append_tag_varint(&mut b, 1, self.protocol_version as u64);
        }
        let ghost head = b@;
        append_tag_varint(&mut b, 2, self.old_num);
        append_tag_varint(&mut b, 3, self.new_num);
        append_tag_varint(&mut b, 4, self.ack_num);
        append_tag_varint(&mut b, 5, self.throwaway_num);
        let ghost nums = b@;
        if !self.diff.is_empty() {
            append_tag_bytes(&mut b, 6, self.diff.as_slice());
        }
        let ghost with_diff = b@;
        if !self.chaff.is_empty() {
            append_tag_bytes(&mut b, 7, self.chaff.as_slice());
        }
        let ghost m = self@;
        assert(head =~= optional(m.protocol_version != 0, varint_field(1, m.protocol_version as nat)));
        assert(with_diff =~= nums + optional(m.diff.len() > 0, bytes_field(6, m.diff)));
        assert(b@ =~= with_diff + optional(m.chaff.len() > 0, bytes_field(7, m.chaff)));
        b
    }
}

/// Appends a `ResizeMessage` as field 3.
fn append_resize(b: &mut Vec<u8>, width: i32, height: i32)
    ensures
        final(b)@ == old(b)@ + bytes_field(3, resize_encoding(width, height)),
{
    let mut resize = Vec::new();
    append_tag_varint(&mut resize, 5, width as u32 as u64);
    append_tag_varint(&mut resize, 6, height as u32 as u64);
    assert(resize@ =~= resize_encoding(width, height));
    append_tag_bytes(b, 3, resize.as_slice());
}

impl UserInstruction {
    /// An instruction carrying only keystrokes.
    pub fn keystroke(keys: &[u8]) -> (r: Self)
        ensures
            r@ == (UserModel { keys: keys@, width: 0, height: 0 }),
    {
        UserInstruction { keys: vstd::slice::slice_to_vec(keys), width: 0, height: 0 }
    }

    /// An instruction carrying only a window size.
    pub fn resize(width: i32, height: i32) -> (r: Self)
        ensures
            r@ == (UserModel { keys: Seq::empty(), width, height }),
    {
        UserInstruction { keys: Vec::new(), width, height }
    }

    fn encode_one(&self) -> (b: Vec<u8>)
        ensures
            b@ == user_instruction_encoding(self@),
    {
        let mut b = Vec::new();
        if !self.keys.is_empty() {
            // field 2 → Keystroke { field 4: keys }
            let mut keystroke = Vec::new();
            append_tag_bytes(&mut keystroke, 4, self.keys.as_slice());
            append_tag_bytes(&mut b, 2, keystroke.as_slice());
        }
        let ghost keys_part = b@;
        if self.width > 0 || self.height > 0 {
            // field 3 → ResizeMessage { field 5: width, field 6: height } as int32 varints
            append_resize(&mut b, self.width, self.height);
        }
        let ghost u = self@;
        assert(keys_part =~= optional(u.keys.len() > 0, bytes_field(2, bytes_field(4, u.keys))));
        assert(b@ =~= user_instruction_encoding(u));
        b
    }

    /// Encode as a `UserMessage` (repeated Instruction field 1).
    pub fn encode_message(instructions: &[UserInstruction]) -> (outer: Vec<u8>)
        ensures
            outer@ == user_message_encoding(user_models(instructions@)),
    {
        let mut outer = Vec::new();
        let ghost enc = |u: UserModel| user_instruction_encoding(u);
        let mut i: usize = 0;
        while i < instructions.len()
            invariant
                i <= instructions.len(),
                enc == (|u: UserModel| user_instruction_encoding(u)),
                outer@ == repeated_field(user_models(instructions@).take(i as int), enc),
            decreases instructions.len() - i,
        {
            let one = instructions[i].encode_one();
            append_tag_bytes(&mut outer, 1, one.as_slice());
            proof {
                let ms = user_models(instructions@);
                assert(ms.take(i + 1) =~= ms.take(i as int).push(ms[i as int]));
                lemma_repeated_field_push(ms.take(i as int), ms[i as int], enc);
            }
            i += 1;
        }
        assert(user_models(instructions@).take(instructions.len() as int) =~= user_models(
            instructions@,
        ));
        outer
    }
}

impl HostInstruction {
    fn encode_one(&self) -> (inner: Vec<u8>)
        ensures
            inner@ == host_instruction_encoding(self@),
    {
        let mut inner = Vec::new();
        if !self.hoststring.is_empty() {
            let mut hb = Vec::new();
            append_tag_bytes(&mut hb, 4, self.hoststring.as_slice());
            append_tag_bytes(&mut inner, 2, hb.as_slice());
        }
        let ghost bytes_part = inner@;
        if self.width > 0 || self.height > 0 {
            append_resize(&mut inner, self.width, self.height);
        }
        let ghost resize_part = inner@;
        if self.echo_ack_num >= 0 {
            let mut e = Vec::new();
            append_tag_varint(&mut e, 8, self.echo_ack_num as u64);
            append_tag_bytes(&mut inner, 7, e.as_slice());
        }
        let ghost h = self@;
        assert(bytes_part =~= optional(
            h.hoststring.len() > 0,
            bytes_field(2, bytes_field(4, h.hoststring)),
        ));
        assert(resize_part =~= bytes_part + optional(
            has_resize(h.width, h.height),
            bytes_field(3, resize_encoding(h.width, h.height)),
        ));
        assert(inner@ =~= host_instruction_encoding(h));
        inner
    }

    /// Encode HostMessage for tests / local servers.
    pub fn encode_message(instructions: &[HostInstruction]) -> (outer: Vec<u8>)
        ensures
            outer@ == host_message_encoding(host_models(instructions@)),
    {
        let mut outer = Vec::new();
        let ghost enc = |h: HostModel| host_instruction_encoding(h);
        let mut i: usize = 0;
        while i < instructions.len()
            invariant
                i <= instructions.len(),
                enc == (|h: HostModel| host_instruction_encoding(h)),
                outer@ == repeated_field(host_models(instructions@).take(i as int), enc),
            decreases instructions.len() - i,
        {
            let inner = instructions[i].encode_one();
            append_tag_bytes(&mut outer, 1, inner.as_slice());
            proof {
                let ms = host_models(instructions@);
                assert(ms.take(i + 1) =~= ms.take(i as int).push(ms[i as int]));
                lemma_repeated_field_push(ms.take(i as int), ms[i as int], enc);
            }
            i += 1;
        }
        assert(host_models(instructions@).take(instructions.len() as int) =~= host_models(
            instructions@,
        ));
        outer
    }
}

/// Reads the fields of a `Keystroke`, adding each field 4 to `keys`.
fn decode_keystroke(inner: &[u8], keys: &mut Vec<u8>) -> (r: Decoded<()>)
    ensures
        match r {
            Decoded::Done(()) => keystroke_decoding(inner@, old(keys)@) == Outcome::Done(final(keys)@),
            Decoded::Fail(e) => keystroke_decoding(inner@, old(keys)@) == Outcome::<Seq<u8>>::Fail(e),
            Decoded::Overrun => keystroke_decoding(inner@, old(keys)@) is Overrun,
        },
{
    let known: Vec<u64> = vec![4];
    let mut rest = inner;
    while rest.len() > 0
        invariant
            known@ == keystroke_known(),
            keystroke_decoding(rest@, keys@) == keystroke_decoding(inner@, old(keys)@),
        decreases rest@.len(),
    {
        let (field, value, n) = match read_field(rest, known.as_slice()) {
            ReadField::Next(f, v, n) => (f, v, n),
            ReadField::Fail(e) => return Decoded::Fail(e),
            ReadField::Overrun => return Decoded::Overrun,
        };
        proof {
            lemma_read_field_progress(rest@, keystroke_known());
        }
        match value {
            WireValue::Bytes(v) => {
                if field == 4 {
                    let ghost before = keys@;
                    keys.extend_from_slice(v.as_slice());
                    assert(keys@ =~= before + v@);
                }
            },
            _ => {},
        }
        rest = slice_subrange(rest, n, rest.len());
    }
    Decoded::Done(())
}

/// Reads the fields of a `ResizeMessage` over the dimensions given.
fn decode_resize(inner: &[u8], width: i32, height: i32) -> (r: Decoded<(i32, i32)>)
    ensures
        match r {
            Decoded::Done(wh) => resize_decoding(inner@, (width, height)) == Outcome::Done(wh),
            Decoded::Fail(e) => resize_decoding(inner@, (width, height)) == Outcome::<
                (i32, i32),
            >::Fail(e),
            Decoded::Overrun => resize_decoding(inner@, (width, height)) is Overrun,
        },
{
    let known: Vec<u64> = Vec::new();
    let mut w = width;
    let mut h = height;
    let mut rest = inner;
    while rest.len() > 0
        invariant
            known@ == resize_known(),
            resize_decoding(rest@, (w, h)) == resize_decoding(inner@, (width, height)),
        decreases rest@.len(),
    {
        let (field, value, n) = match read_field(rest, known.as_slice()) {
            ReadField::Next(f, v, n) => (f, v, n),
            ReadField::Fail(e) => return Decoded::Fail(e),
            ReadField::Overrun => return Decoded::Overrun,
        };
        proof {
            lemma_read_field_progress(rest@, resize_known());
        }
        match value {
            WireValue::Varint(v) => {
                if field == 5 {
                    w = v as i32;
                } else if field == 6 {
                    h = v as i32;
                }
            },
            _ => {},
        }
        rest = slice_subrange(rest, n, rest.len());
    }
    Decoded::Done((w, h))
}

/// Reads the fields of a `HostBytes`, each field 4 replacing `hoststring`.
fn decode_host_bytes(inner: &[u8], hoststring: &mut Vec<u8>) -> (r: Decoded<()>)
    ensures
        match r {
            Decoded::Done(()) => host_bytes_decoding(inner@, old(hoststring)@) == Outcome::Done(
                final(hoststring)@,
            ),
            Decoded::Fail(e) => host_bytes_decoding(inner@, old(hoststring)@) == Outcome::<
                Seq<u8>,
            >::Fail(e),
            Decoded::Overrun => host_bytes_decoding(inner@, old(hoststring)@) is Overrun,
        },
{
    let known: Vec<u64> = vec![4];
    let mut rest = inner;
    while rest.len() > 0
        invariant
            known@ == host_bytes_known(),
            host_bytes_decoding(rest@, hoststring@) == host_bytes_decoding(
                inner@,
                old(hoststring)@,
            ),
        decreases rest@.len(),
    {
        let (field, value, n) = match read_field(rest, known.as_slice()) {
            ReadField::Next(f, v, n) => (f, v, n),
            ReadField::Fail(e) => return Decoded::Fail(e),
            ReadField::Overrun => return Decoded::Overrun,
        };
        proof {
            lemma_read_field_progress(rest@, host_bytes_known());
        }
        match value {
            WireValue::Bytes(v) => {
                if field == 4 {
                    *hoststring = v;
                }
            },
            _ => {},
        }
        rest = slice_subrange(rest, n, rest.len());
    }
    Decoded::Done(())
}

/// Reads the fields of an `EchoAck` over the number given.
fn decode_echo_ack(inner: &[u8], echo_ack_num: i64) -> (r: Decoded<i64>)
    ensures
        match r {
            Decoded::Done(n) => echo_decoding(inner@, echo_ack_num) == Outcome::Done(n),
            Decoded::Fail(e) => echo_decoding(inner@, echo_ack_num) == Outcome::<i64>::Fail(e),
            Decoded::Overrun => echo_decoding(inner@, echo_ack_num) is Overrun,
        },
{
    let known: Vec<u64> = Vec::new();
    let mut echo = echo_ack_num;
    let mut rest = inner;
    while rest.len() > 0
        invariant
            known@ == echo_known(),
            echo_decoding(rest@, echo) == echo_decoding(inner@, echo_ack_num),
        decreases rest@.len(),
    {
        let (field, value, n) = match read_field(rest, known.as_slice()) {
            ReadField::Next(f, v, n) => (f, v, n),
            ReadField::Fail(e) => return Decoded::Fail(e),
            ReadField::Overrun => return Decoded::Overrun,
        };
        proof {
            lemma_read_field_progress(rest@, echo_known());
        }
        match value {
            WireValue::Varint(v) => {
                if field == 8 {
                    echo = v as i64;
                }
            },
            _ => {},
        }
        rest = slice_subrange(rest, n, rest.len());
    }
    Decoded::Done(echo)
}

impl TransportInstruction {
    /// Decodes every field of a transport instruction, reporting an
    /// overrunning fixed-width field rather than stepping past the end.
    fn decode_fields(data: &[u8]) -> (r: Decoded<Self>)
        ensures
            match r {
                Decoded::Done(m) => transport_decoding(data@) == Outcome::Done(m@),
                Decoded::Fail(e) => transport_decoding(data@) == Outcome::<TransportModel>::Fail(e),
                Decoded::Overrun => transport_decoding(data@) is Overrun,
            },
    {
        let known: Vec<u64> = vec![6, 7];
        let mut msg = Self::default();
        let mut rest = data;
        while rest.len() > 0
            invariant
                known@ == transport_known(),
                fold_fields(rest@, transport_known(), msg@, transport_stepper())
                    == transport_decoding(data@),
            decreases rest@.len(),
        {
            let (field, value, n) = match read_field(rest, known.as_slice()) {
                ReadField::Next(f, v, n) => (f, v, n),
                ReadField::Fail(e) => return Decoded::Fail(e),
                ReadField::Overrun => return Decoded::Overrun,
            };
            proof {
                lemma_read_field_progress(rest@, transport_known());
            }
            match value {
                WireValue::Varint(v) => {
                    if field == 1 {
                        msg.protocol_version = v as u32;
                    } else if field == 2 {
                        msg.old_num = v;
                    } else if field == 3 {
                        msg.new_num = v;
                    } else if field == 4 {
                        msg.ack_num = v;
                    } else if field == 5 {
                        msg.throwaway_num = v;
                    }
                },
                WireValue::Bytes(v) => {
                    if field == 6 {
                        msg.diff = v;
                    } else if field == 7 {
                        msg.chaff = v;
                    }
                },
                WireValue::Skipped => {},
            }
            rest = slice_subrange(rest, n, rest.len());
        }
        Decoded::Done(msg)
    }

    /// Decodes a transport instruction; fields it does not know are
    /// skipped, and a field seen twice keeps its last value. A fixed-width
    /// field running past the end of `data` is outside the contract:
    /// `decode_overruns` tells whether `data` holds one.
    pub fn decode(data: &[u8]) -> (r: Result<Self, ProtobufError>)
        requires
            !(transport_decoding(data@) is Overrun),
        ensures
            match r {
                Ok(m) => transport_decoding(data@) == Outcome::Done(m@),
                Err(e) => transport_decoding(data@) == Outcome::<TransportModel>::Fail(e),
            },
    {
        match Self::decode_fields(data) {
            Decoded::Done(m) => Ok(m),
            Decoded::Fail(e) => Err(e),
            Decoded::Overrun => vstd::pervasive::unreached(),
        }
    }

    /// Whether `data` holds a fixed-width field running past its end, the
    /// one input `decode` does not take.
    pub fn decode_overruns(data: &[u8]) -> (b: bool)
        ensures
            b == (transport_decoding(data@) is Overrun),
    {
        match Self::decode_fields(data) {
            Decoded::Overrun => true,
            _ => false,
        }
    }
}

impl UserInstruction {
    fn decode_one(data: &[u8]) -> (r: Decoded<Self>)
        ensures
            match r {
                Decoded::Done(m) => user_instruction_decoding(data@) == Outcome::Done(m@),
                Decoded::Fail(e) => user_instruction_decoding(data@) == Outcome::<UserModel>::Fail(e),
                Decoded::Overrun => user_instruction_decoding(data@) is Overrun,
            },
    {
        let known: Vec<u64> = vec![2, 3];
        let mut msg = Self::default();
        let mut rest = data;
        while rest.len() > 0
            invariant
                known@ == user_known(),
                fold_fields(rest@, user_known(), msg@, user_stepper())
                    == user_instruction_decoding(data@),
            decreases rest@.len(),
        {
            let (field, value, n) = match read_field(rest, known.as_slice()) {
                ReadField::Next(f, v, n) => (f, v, n),
                ReadField::Fail(e) => return Decoded::Fail(e),
                ReadField::Overrun => return Decoded::Overrun,
            };
            proof {
                lemma_read_field_progress(rest@, user_known());
            }
            match value {
                WireValue::Bytes(inner) => {
                    if field == 2 {
                        // Keystroke { field 4: keys }
                        match decode_keystroke(inner.as_slice(), &mut msg.keys) {
                            Decoded::Done(()) => {},
                            Decoded::Fail(e) => return Decoded::Fail(e),
                            Decoded::Overrun => return Decoded::Overrun,
                        }
                    } else if field == 3 {
                        match decode_resize(inner.as_slice(), msg.width, msg.height) {
                            Decoded::Done((w, h)) => {
                                msg.width = w;
                                msg.height = h;
                            },
                            Decoded::Fail(e) => return Decoded::Fail(e),
                            Decoded::Overrun => return Decoded::Overrun,
                        }
                    }
                },
                _ => {},
            }
            rest = slice_subrange(rest, n, rest.len());
        }
        Decoded::Done(msg)
    }

    fn decode_message_fields(data: &[u8]) -> (r: Decoded<Vec<UserInstruction>>)
        ensures
            match r {
                Decoded::Done(v) => user_message_decoding(data@) == Outcome::Done(user_models(v@)),
                Decoded::Fail(e) => user_message_decoding(data@) == Outcome::<Seq<UserModel>>::Fail(e),
                Decoded::Overrun => user_message_decoding(data@) is Overrun,
            },
    {
        let known: Vec<u64> = vec![1];
        let mut out: Vec<UserInstruction> = Vec::new();
        let mut rest = data;
        assert(user_models(out@) =~= Seq::<UserModel>::empty());
        while rest.len() > 0
            invariant
                known@ == message_known(),
                fold_fields(rest@, message_known(), user_models(out@), user_message_stepper())
                    == user_message_decoding(data@),
            decreases rest@.len(),
        {
            let (field, value, n) = match read_field(rest, known.as_slice()) {
                ReadField::Next(f, v, n) => (f, v, n),
                ReadField::Fail(e) => return Decoded::Fail(e),
                ReadField::Overrun => return Decoded::Overrun,
            };
            proof {
                lemma_read_field_progress(rest@, message_known());
            }
            match value {
                WireValue::Bytes(inner) => {
                    if field == 1 {
                        match Self::decode_one(inner.as_slice()) {
                            Decoded::Done(u) => {
                                let ghost before = out@;
                                out.push(u);
                                assert(user_models(out@) =~= user_models(before).push(u@));
                            },
                            Decoded::Fail(e) => return Decoded::Fail(e),
                            Decoded::Overrun => return Decoded::Overrun,
                        }
                    }
                },
                _ => {},
            }
            rest = slice_subrange(rest, n, rest.len());
        }
        Decoded::Done(out)
    }

    /// Decode a `UserMessage` (repeated Instruction field 1). A fixed-width
    /// field running past the end of what holds it is outside the contract:
    /// `decode_message_overruns` tells whether `data` holds one.
    pub fn decode_message(data: &[u8]) -> (r: Result<Vec<UserInstruction>, ProtobufError>)
        requires
            !(user_message_decoding(data@) is Overrun),
        ensures
            match r {
                Ok(v) => user_message_decoding(data@) == Outcome::Done(user_models(v@)),
                Err(e) => user_message_decoding(data@) == Outcome::<Seq<UserModel>>::Fail(e),
            },
    {
        match Self::decode_message_fields(data) {
            Decoded::Done(v) => Ok(v),
            Decoded::Fail(e) => Err(e),
            Decoded::Overrun => vstd::pervasive::unreached(),
        }
    }

    /// Whether `data` holds a fixed-width field running past the end of
    /// what holds it, the one input `decode_message` does not take.
    pub fn decode_message_overruns(data: &[u8]) -> (b: bool)
        ensures
            b == (user_message_decoding(data@) is Overrun),
    {
        match Self::decode_message_fields(data) {
            Decoded::Overrun => true,
            _ => false,
        }
    }
}

impl HostInstruction {
    fn decode_one(data: &[u8]) -> (r: Decoded<Self>)
        ensures
            match r {
                Decoded::Done(m) => host_instruction_decoding(data@) == Outcome::Done(m@),
                Decoded::Fail(e) => host_instruction_decoding(data@) == Outcome::<HostModel>::Fail(e),
                Decoded::Overrun => host_instruction_decoding(data@) is Overrun,
            },
    {
        let known: Vec<u64> = vec![2, 3, 7];
        let mut msg = HostInstruction { echo_ack_num: -1, ..Self::default() };
        let mut rest = data;
        while rest.len() > 0
            invariant
                known@ == host_known(),
                fold_fields(rest@, host_known(), msg@, host_stepper())
                    == host_instruction_decoding(data@),
            decreases rest@.len(),
        {
            let (field, value, n) = match read_field(rest, known.as_slice()) {
                ReadField::Next(f, v, n) => (f, v, n),
                ReadField::Fail(e) => return Decoded::Fail(e),
                ReadField::Overrun => return Decoded::Overrun,
            };
            proof {
                lemma_read_field_progress(rest@, host_known());
            }
            match value {
                WireValue::Bytes(inner) => {
                    if field == 2 {
                        // HostBytes { field 4: hoststring }
                        match decode_host_bytes(inner.as_slice(), &mut msg.hoststring) {
                            Decoded::Done(()) => {},
                            Decoded::Fail(e) => return Decoded::Fail(e),
                            Decoded::Overrun => return Decoded::Overrun,
                        }
                    } else if field == 3 {
                        match decode_resize(inner.as_slice(), msg.width, msg.height) {
                            Decoded::Done((w, h)) => {
                                msg.width = w;
                                msg.height = h;
                            },
                            Decoded::Fail(e) => return Decoded::Fail(e),
                            Decoded::Overrun => return Decoded::Overrun,
                        }
                    } else if field == 7 {
                        match decode_echo_ack(inner.as_slice(), msg.echo_ack_num) {
                            Decoded::Done(e) => {
                                msg.echo_ack_num = e;
                            },
                            Decoded::Fail(e) => return Decoded::Fail(e),
                            Decoded::Overrun => return Decoded::Overrun,
                        }
                    }
                },
                _ => {},
            }
            rest = slice_subrange(rest, n, rest.len());
        }
        Decoded::Done(msg)
    }

    fn decode_message_fields(data: &[u8]) -> (r: Decoded<Vec<HostInstruction>>)
        ensures
            match r {
                Decoded::Done(v) => host_message_decoding(data@) == Outcome::Done(host_models(v@)),
                Decoded::Fail(e) => host_message_decoding(data@) == Outcome::<Seq<HostModel>>::Fail(e),
                Decoded::Overrun => host_message_decoding(data@) is Overrun,
            },
    {
        let known: Vec<u64> = vec![1];
        let mut out: Vec<HostInstruction> = Vec::new();
        let mut rest = data;
        assert(host_models(out@) =~= Seq::<HostModel>::empty());
        while rest.len() > 0
            invariant
                known@ == message_known(),
                fold_fields(rest@, message_known(), host_models(out@), host_message_stepper())
                    == host_message_decoding(data@),
            decreases rest@.len(),
        {
            let (field, value, n) = match read_field(rest, known.as_slice()) {
                ReadField::Next(f, v, n) => (f, v, n),
                ReadField::Fail(e) => return Decoded::Fail(e),
                ReadField::Overrun => return Decoded::Overrun,
            };
            proof {
                lemma_read_field_progress(rest@, message_known());
            }
            match value {
                WireValue::Bytes(inner) => {
                    if field == 1 {
                        match Self::decode_one(inner.as_slice()) {
                            Decoded::Done(h) => {
                                let ghost before = out@;
                                out.push(h);
                                assert(host_models(out@) =~= host_models(before).push(h@));
                            },
                            Decoded::Fail(e) => return Decoded::Fail(e),
                            Decoded::Overrun => return Decoded::Overrun,
                        }
                    }
                },
                _ => {},
            }
            rest = slice_subrange(rest, n, rest.len());
        }
        Decoded::Done(out)
    }

    /// Decode a `HostMessage` (repeated Instruction field 1). A fixed-width
    /// field running past the end of what holds it is outside the contract:
    /// `decode_message_overruns` tells whether `data` holds one.
    pub fn decode_message(data: &[u8]) -> (r: Result<Vec<HostInstruction>, ProtobufError>)
        requires
            !(host_message_decoding(data@) is Overrun),
        ensures
            match r {
                Ok(v) => host_message_decoding(data@) == Outcome::Done(host_models(v@)),
                Err(e) => host_message_decoding(data@) == Outcome::<Seq<HostModel>>::Fail(e),
            },
    {
        match Self::decode_message_fields(data) {
            Decoded::Done(v) => Ok(v),
            Decoded::Fail(e) => Err(e),
            Decoded::Overrun => vstd::pervasive::unreached(),
        }
    }

    /// Whether `data` holds a fixed-width field running past the end of
    /// what holds it, the one input `decode_message` does not take.
    pub fn decode_message_overruns(data: &[u8]) -> (b: bool)
        ensures
            b == (host_message_decoding(data@) is Overrun),
    {
        match Self::decode_message_fields(data) {
            Decoded::Overrun => true,
            _ => false,
        }
    }
}

} // verus!
