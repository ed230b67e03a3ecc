//! What each field of the wire forms means: after any fields that decode,
//! one more field sets (or, for keys, extends) exactly the member it names,
//! with exactly the value it holds; and what the wire form of an instruction
//! is, spelled out field by field.

use vstd::prelude::*;

use crate::pb::{
    has_resize, host_instruction_decoding, host_instruction_encoding, host_known, host_stepper,
    transport_decoding, transport_encoding, transport_known, transport_stepper,
    user_instruction_decoding, user_instruction_encoding, user_known, user_stepper, blank_host,
    empty_transport, empty_user, host_message_decoding, host_message_encoding,
    host_message_stepper, message_known, user_message_decoding, user_message_encoding,
    user_message_stepper, HostModel, TransportModel, UserModel,
};
use crate::roundtrip::{
    fits_headers, lemma_bytes_field_len, lemma_fold_bytes, lemma_fold_varint,
    lemma_host_bytes_roundtrip, lemma_keystroke_roundtrip, lemma_resize_roundtrip,
    lemma_varint_field_len,
};
use crate::wire::{bytes_field, fold_fields, lemma_fold_concat, varint_field, Outcome};

verus! {

/// The wire form of an int32: the varint of its 32-bit two's complement.
pub open spec fn int32_wire(x: i32) -> nat {
    (x as u32) as nat
}

/// A `ResizeMessage` written out: width in field 5, height in field 6.
pub open spec fn resize_fields(width: i32, height: i32) -> Seq<u8> {
    varint_field(5, int32_wire(width)) + varint_field(6, int32_wire(height))
}

proof fn lemma_resize_fields_len(width: i32, height: i32)
    ensures
        resize_fields(width, height).len() <= 40,
{
    lemma_varint_field_len(5, int32_wire(width));
    lemma_varint_field_len(6, int32_wire(height));
}

/// After fields that decode to `m`, a varint field 1 to 5 sets the protocol
/// version (its low 32 bits) or the sequence number it names to the value,
/// and a field 6 or 7 sets the diff or the chaff to its payload, byte for
/// byte; nothing else changes.
pub proof fn transport_field_sets_member(p: Seq<u8>, m: TransportModel, v: u64, d: Seq<u8>)
    requires
        transport_decoding(p) == Outcome::Done(m),
        d.len() <= u64::MAX,
    ensures
        transport_decoding(p + varint_field(1, v as nat)) == Outcome::Done(
            TransportModel { protocol_version: v as u32, ..m },
        ),
        transport_decoding(p + varint_field(2, v as nat)) == Outcome::Done(
            TransportModel { old_num: v, ..m },
        ),
        transport_decoding(p + varint_field(3, v as nat)) == Outcome::Done(
            TransportModel { new_num: v, ..m },
        ),
        transport_decoding(p + varint_field(4, v as nat)) == Outcome::Done(
            TransportModel { ack_num: v, ..m },
        ),
        transport_decoding(p + varint_field(5, v as nat)) == Outcome::Done(
            TransportModel { throwaway_num: v, ..m },
        ),
        transport_decoding(p + bytes_field(6, d)) == Outcome::Done(TransportModel { diff: d, ..m }),
        transport_decoding(p + bytes_field(7, d)) == Outcome::Done(
            TransportModel { chaff: d, ..m },
        ),
{
    let k = transport_known();
    let st = transport_stepper();
    let e = Seq::<u8>::empty();
    assert(k.contains(6u64) && k.contains(7u64)) by {
        assert(k[0] == 6 && k[1] == 7);
    }
    assert forall|f: u64| 1 <= f <= 5 implies transport_decoding(p + varint_field(f as nat, v as nat))
        == fold_fields(e, k, (st)(m, f, crate::wire::FieldValue::Varint(v))->Done_0, st) by {
        let q = varint_field(f as nat, v as nat);
        lemma_fold_concat(p, q, k, empty_transport(), st);
        assert(q + e =~= q);
        lemma_fold_varint(f, v, e, k, m, st);
    }
    assert forall|f: u64| 6 <= f <= 7 implies transport_decoding(p + bytes_field(f as nat, d))
        == fold_fields(e, k, (st)(m, f, crate::wire::FieldValue::Bytes(d))->Done_0, st) by {
        let q = bytes_field(f as nat, d);
        lemma_fold_concat(p, q, k, empty_transport(), st);
        assert(q + e =~= q);
        lemma_fold_bytes(f, d, e, k, m, st);
    }
}

/// After fields that decode to `u`, a `Keystroke` (field 2) whose field 4
/// holds `keys` adds exactly those bytes, in order, to the keys held.
pub proof fn user_keystroke_field_adds_keys(p: Seq<u8>, u: UserModel, keys: Seq<u8>)
    requires
        user_instruction_decoding(p) == Outcome::Done(u),
        fits_headers(keys.len()),
    ensures
        user_instruction_decoding(p + bytes_field(2, bytes_field(4, keys))) == Outcome::Done(
            UserModel { keys: u.keys + keys, ..u },
        ),
{
    let k = user_known();
    let st = user_stepper();
    let e = Seq::<u8>::empty();
    assert(k.contains(2u64)) by {
        assert(k[0] == 2);
    }
    let inner = bytes_field(4, keys);
    let q = bytes_field(2, inner);
    lemma_bytes_field_len(4, keys);
    lemma_fold_concat(p, q, k, empty_user(), st);
    assert(q + e =~= q);
    lemma_fold_bytes(2, inner, e, k, u, st);
    lemma_keystroke_roundtrip(keys, u.keys);
}

/// After fields that decode to `u`, a `ResizeMessage` (field 3) holding
/// width `w` in field 5 and height `h` in field 6 sets exactly that size.
pub proof fn user_resize_field_sets_size(p: Seq<u8>, u: UserModel, w: i32, h: i32)
    requires
        user_instruction_decoding(p) == Outcome::Done(u),
    ensures
        user_instruction_decoding(p + bytes_field(3, resize_fields(w, h))) == Outcome::Done(
            UserModel { width: w, height: h, ..u },
        ),
{
    let k = user_known();
    let st = user_stepper();
    let e = Seq::<u8>::empty();
    assert(k.contains(3u64)) by {
        assert(k[1] == 3);
    }
    let q = bytes_field(3, resize_fields(w, h));
    lemma_resize_fields_len(w, h);
    lemma_fold_concat(p, q, k, empty_user(), st);
    assert(q + e =~= q);
    lemma_fold_bytes(3, resize_fields(w, h), e, k, u, st);
    lemma_resize_roundtrip(w, h, (u.width, u.height));
}

/// After fields that decode to `h`, a `HostBytes` (field 2) whose field 4
/// holds `s` sets the host string to exactly `s`, whatever it held.
pub proof fn host_bytes_field_sets_hoststring(p: Seq<u8>, h: HostModel, s: Seq<u8>)
    requires
        host_instruction_decoding(p) == Outcome::Done(h),
        fits_headers(s.len()),
    ensures
        host_instruction_decoding(p + bytes_field(2, bytes_field(4, s))) == Outcome::Done(
            HostModel { hoststring: s, ..h },
        ),
{
    let k = host_known();
    let st = host_stepper();
    let e = Seq::<u8>::empty();
    assert(k.contains(2u64)) by {
        assert(k[0] == 2);
    }
    let inner = bytes_field(4, s);
    let q = bytes_field(2, inner);
    lemma_bytes_field_len(4, s);
    lemma_fold_concat(p, q, k, blank_host(), st);
    assert(q + e =~= q);
    lemma_fold_bytes(2, inner, e, k, h, st);
    lemma_host_bytes_roundtrip(s, h.hoststring);
}

/// After fields that decode to `m`, a `ResizeMessage` (field 3) holding
/// width `w` in field 5 and height `h` in field 6 sets exactly that size.
pub proof fn host_resize_field_sets_size(p: Seq<u8>, m: HostModel, w: i32, h: i32)
    requires
        host_instruction_decoding(p) == Outcome::Done(m),
    ensures
        host_instruction_decoding(p + bytes_field(3, resize_fields(w, h))) == Outcome::Done(
            HostModel { width: w, height: h, ..m },
        ),
{
    let k = host_known();
    let st = host_stepper();
    let e = Seq::<u8>::empty();
    assert(k.contains(3u64)) by {
        assert(k[1] == 3);
    }
    let q = bytes_field(3, resize_fields(w, h));
    lemma_resize_fields_len(w, h);
    lemma_fold_concat(p, q, k, blank_host(), st);
    assert(q + e =~= q);
    lemma_fold_bytes(3, resize_fields(w, h), e, k, m, st);
    lemma_resize_roundtrip(w, h, (m.width, m.height));
}

/// After fields that decode to `m`, an `EchoAck` (field 7) whose field 8
/// holds `v` sets the echo ack number to `v` (as a 64-bit two's complement).
pub proof fn host_echo_field_sets_echo(p: Seq<u8>, m: HostModel, v: u64)
    requires
        host_instruction_decoding(p) == Outcome::Done(m),
    ensures
        host_instruction_decoding(p + bytes_field(7, varint_field(8, v as nat))) == Outcome::Done(
            HostModel { echo_ack_num: v as i64, ..m },
        ),
{
    let k = host_known();
    let st = host_stepper();
    let e = Seq::<u8>::empty();
    assert(k.contains(7u64)) by {
        assert(k[2] == 7);
    }
    let inner = varint_field(8, v as nat);
    let q = bytes_field(7, inner);
    lemma_varint_field_len(8, v as nat);
    lemma_fold_concat(p, q, k, blank_host(), st);
    assert(q + e =~= q);
    lemma_fold_bytes(7, inner, e, k, m, st);
    assert(inner + e =~= inner);
    lemma_fold_varint(8, v, e, crate::pb::echo_known(), m.echo_ack_num, crate::pb::echo_stepper());
}

/// The wire form of a user instruction, field by field: its keys verbatim
/// in a `Keystroke` when there are any, then its size in a `ResizeMessage`
/// (width in field 5) when either dimension is positive.
pub proof fn user_instruction_wire_form(u: UserModel)
    ensures
        user_instruction_encoding(u) == (if u.keys.len() > 0 {
            bytes_field(2, bytes_field(4, u.keys))
        } else {
            Seq::empty()
        }) + (if u.width > 0 || u.height > 0 {
            bytes_field(3, resize_fields(u.width, u.height))
        } else {
            Seq::empty()
        }),
{
}

/// The wire form of a host instruction, field by field: its host string
/// verbatim in a `HostBytes` when not empty, its size in a `ResizeMessage`
/// (width in field 5) when either dimension is positive, its echo ack
/// number in an `EchoAck` when not negative.
pub proof fn host_instruction_wire_form(h: HostModel)
    ensures
        host_instruction_encoding(h) == (if h.hoststring.len() > 0 {
            bytes_field(2, bytes_field(4, h.hoststring))
        } else {
            Seq::empty()
        }) + (if h.width > 0 || h.height > 0 {
            bytes_field(3, resize_fields(h.width, h.height))
        } else {
            Seq::empty()
        }) + (if h.echo_ack_num >= 0 {
            bytes_field(7, varint_field(8, h.echo_ack_num as nat))
        } else {
            Seq::empty()
        }),
{
}

/// The wire form of a transport instruction, field by field: the version
/// when not 0, the four sequence numbers always, then the diff and the
/// chaff verbatim when not empty.
pub proof fn transport_wire_form(m: TransportModel)
    ensures
        transport_encoding(m) == (if m.protocol_version != 0 {
            varint_field(1, m.protocol_version as nat)
        } else {
            Seq::empty()
        }) + varint_field(2, m.old_num as nat) + varint_field(3, m.new_num as nat) + varint_field(
            4,
            m.ack_num as nat,
        ) + varint_field(5, m.throwaway_num as nat) + (if m.diff.len() > 0 {
            bytes_field(6, m.diff)
        } else {
            Seq::empty()
        }) + (if m.chaff.len() > 0 {
            bytes_field(7, m.chaff)
        } else {
            Seq::empty()
        }),
{
}

/// After fields that decode to the list `xs`, a field 1 holding bytes that
/// decode to the instruction `u` appends exactly `u`.
pub proof fn user_message_field_appends(p: Seq<u8>, xs: Seq<UserModel>, b: Seq<u8>, u: UserModel)
    requires
        user_message_decoding(p) == Outcome::Done(xs),
        user_instruction_decoding(b) == Outcome::Done(u),
        b.len() <= u64::MAX,
    ensures
        user_message_decoding(p + bytes_field(1, b)) == Outcome::Done(xs.push(u)),
{
    let k = message_known();
    let st = user_message_stepper();
    let e = Seq::<u8>::empty();
    assert(k.contains(1u64)) by {
        assert(k[0] == 1);
    }
    let q = bytes_field(1, b);
    lemma_fold_concat(p, q, k, Seq::empty(), st);
    assert(q + e =~= q);
    lemma_fold_bytes(1, b, e, k, xs, st);
}

/// After fields that decode to the list `xs`, a field 1 holding bytes that
/// decode to the instruction `h` appends exactly `h`.
pub proof fn host_message_field_appends(p: Seq<u8>, xs: Seq<HostModel>, b: Seq<u8>, h: HostModel)
    requires
        host_message_decoding(p) == Outcome::Done(xs),
        host_instruction_decoding(b) == Outcome::Done(h),
        b.len() <= u64::MAX,
    ensures
        host_message_decoding(p + bytes_field(1, b)) == Outcome::Done(xs.push(h)),
{
    let k = message_known();
    let st = host_message_stepper();
    let e = Seq::<u8>::empty();
    assert(k.contains(1u64)) by {
        assert(k[0] == 1);
    }
    let q = bytes_field(1, b);
    lemma_fold_concat(p, q, k, Seq::empty(), st);
    assert(q + e =~= q);
    lemma_fold_bytes(1, b, e, k, xs, st);
}

/// The wire form of a `UserMessage`: the first instruction's wire form as
/// a field 1, then the message of the rest; nothing for no instructions.
pub proof fn user_message_wire_form(xs: Seq<UserModel>)
    ensures
        xs.len() == 0 ==> user_message_encoding(xs) == Seq::<u8>::empty(),
        xs.len() > 0 ==> user_message_encoding(xs) == bytes_field(
            1,
            user_instruction_encoding(xs[0]),
        ) + user_message_encoding(xs.drop_first()),
{
}

/// The wire form of a `HostMessage`: the first instruction's wire form as
/// a field 1, then the message of the rest; nothing for no instructions.
pub proof fn host_message_wire_form(xs: Seq<HostModel>)
    ensures
        xs.len() == 0 ==> host_message_encoding(xs) == Seq::<u8>::empty(),
        xs.len() > 0 ==> host_message_encoding(xs) == bytes_field(
            1,
            host_instruction_encoding(xs[0]),
        ) + host_message_encoding(xs.drop_first()),
{
}

} // verus!
