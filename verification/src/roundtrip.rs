//! What decoding gives back of an encoding.

use vstd::prelude::*;

use crate::pb::{
    blank_host, echo_decoding, empty_transport, empty_user, has_resize, host_bytes_decoding,
    host_instruction_decoding, host_instruction_encoding, host_message_decoding,
    host_message_encoding, host_message_stepper, host_stepper, keystroke_decoding,
    message_known, optional, repeated_field, resize_decoding, resize_encoding,
    transport_decoding, transport_encoding, transport_known, transport_stepper,
    user_instruction_decoding, user_instruction_encoding, user_message_decoding,
    user_message_encoding, user_message_stepper, user_stepper, HostModel, TransportModel,
    UserModel,
};
use crate::varint::{lemma_varint_bytes_shape, pow128, varint_bytes};
use crate::wire::{
    appends, bytes_field, fold_fields, lemma_fold_concat, lemma_fold_front, lemma_fold_prepend,
    lemma_read_bytes_field, lemma_read_varint_field, prepend_outcome, varint_field, FieldValue,
    Outcome,
};

verus! {

/// A varint of a 64-bit value takes one to ten bytes.
pub(crate) proof fn lemma_varint_len(v: nat)
    requires
        v <= u64::MAX,
    ensures
        1 <= varint_bytes(v).len() <= 10,
{
    reveal_with_fuel(pow128, 11);
    assert(pow128(10) == 0x40_0000_0000_0000_0000);
    lemma_varint_bytes_shape(v, 10);
}

/// A message that starts with a varint field hands it to `step`.
pub(crate) proof fn lemma_fold_varint<A>(
    field: u64,
    value: u64,
    rest: Seq<u8>,
    known: Seq<u64>,
    acc: A,
    step: spec_fn(A, u64, FieldValue) -> Outcome<A>,
)
    requires
        field < 0x2000_0000_0000_0000,
    ensures
        fold_fields(varint_field(field as nat, value as nat) + rest, known, acc, step) == match step(
            acc,
            field,
            FieldValue::Varint(value),
        ) {
            Outcome::Done(a) => fold_fields(rest, known, a, step),
            Outcome::Fail(e) => Outcome::Fail(e),
            Outcome::Overrun => Outcome::Overrun,
        },
{
    lemma_varint_len((field * 8) as nat);
    lemma_read_varint_field(field, value, rest, known);
    lemma_fold_front(
        varint_field(field as nat, value as nat),
        rest,
        known,
        acc,
        step,
        field,
        FieldValue::Varint(value),
    );
}

/// A message that starts with a length-delimited field of a known number
/// hands it to `step`.
pub(crate) proof fn lemma_fold_bytes<A>(
    field: u64,
    payload: Seq<u8>,
    rest: Seq<u8>,
    known: Seq<u64>,
    acc: A,
    step: spec_fn(A, u64, FieldValue) -> Outcome<A>,
)
    requires
        field < 0x2000_0000_0000_0000,
        payload.len() <= u64::MAX,
        known.contains(field),
    ensures
        fold_fields(bytes_field(field as nat, payload) + rest, known, acc, step) == match step(
            acc,
            field,
            FieldValue::Bytes(payload),
        ) {
            Outcome::Done(a) => fold_fields(rest, known, a, step),
            Outcome::Fail(e) => Outcome::Fail(e),
            Outcome::Overrun => Outcome::Overrun,
        },
{
    lemma_varint_len((field * 8 + 2) as nat);
    lemma_read_bytes_field(field, payload, rest, known);
    lemma_fold_front(
        bytes_field(field as nat, payload),
        rest,
        known,
        acc,
        step,
        field,
        FieldValue::Bytes(payload),
    );
}

/// Decoding what `encode` wrote gives back the same transport instruction.
#[verifier::spinoff_prover]
#[verifier::rlimit(40)]
pub proof fn transport_roundtrip(m: TransportModel)
    requires
        m.diff.len() <= u64::MAX,
        m.chaff.len() <= u64::MAX,
    ensures
        transport_decoding(transport_encoding(m)) == Outcome::Done(m),
{
    let k = transport_known();
    let st = transport_stepper();
    let e = Seq::<u8>::empty();
    let o1 = optional(m.protocol_version != 0, varint_field(1, m.protocol_version as nat));
    let o6 = optional(m.diff.len() > 0, bytes_field(6, m.diff));
    let o7 = optional(m.chaff.len() > 0, bytes_field(7, m.chaff));
    let s7 = o7 + e;
    let s6 = o6 + s7;
    let s5 = varint_field(5, m.throwaway_num as nat) + s6;
    let s4 = varint_field(4, m.ack_num as nat) + s5;
    let s3 = varint_field(3, m.new_num as nat) + s4;
    let s2 = varint_field(2, m.old_num as nat) + s3;
    let s1 = o1 + s2;
    assert(transport_encoding(m) =~= s1);
    assert(k.contains(6u64)) by {
        assert(k[0] == 6);
    }
    assert(k.contains(7u64)) by {
        assert(k[1] == 7);
    }
    let m1 = TransportModel { protocol_version: m.protocol_version, ..empty_transport() };
    assert(fold_fields(s1, k, empty_transport(), st) == fold_fields(s2, k, m1, st)) by {
        if m.protocol_version != 0 {
            lemma_fold_varint(1, m.protocol_version as u64, s2, k, empty_transport(), st);
            assert((m.protocol_version as u64) as u32 == m.protocol_version);
        } else {
            assert(s1 =~= s2);
            assert(m1 == empty_transport());
        }
    }
    let m2 = TransportModel { old_num: m.old_num, ..m1 };
    assert(fold_fields(s2, k, m1, st) == fold_fields(s3, k, m2, st)) by {
        lemma_fold_varint(2, m.old_num, s3, k, m1, st);
    }
    let m3 = TransportModel { new_num: m.new_num, ..m2 };
    assert(fold_fields(s3, k, m2, st) == fold_fields(s4, k, m3, st)) by {
        lemma_fold_varint(3, m.new_num, s4, k, m2, st);
    }
    let m4 = TransportModel { ack_num: m.ack_num, ..m3 };
    assert(fold_fields(s4, k, m3, st) == fold_fields(s5, k, m4, st)) by {
        lemma_fold_varint(4, m.ack_num, s5, k, m3, st);
    }
    let m5 = TransportModel { throwaway_num: m.throwaway_num, ..m4 };
    assert(fold_fields(s5, k, m4, st) == fold_fields(s6, k, m5, st)) by {
        lemma_fold_varint(5, m.throwaway_num, s6, k, m4, st);
    }
    let m6 = TransportModel { diff: m.diff, ..m5 };
    assert(fold_fields(s6, k, m5, st) == fold_fields(s7, k, m6, st)) by {
        if m.diff.len() > 0 {
            lemma_fold_bytes(6, m.diff, s7, k, m5, st);
        } else {
            assert(s6 =~= s7);
            assert(m.diff =~= Seq::<u8>::empty());
        }
    }
    let m7 = TransportModel { chaff: m.chaff, ..m6 };
    assert(fold_fields(s7, k, m6, st) == fold_fields(e, k, m7, st)) by {
        if m.chaff.len() > 0 {
            lemma_fold_bytes(7, m.chaff, e, k, m6, st);
        } else {
            assert(s7 =~= e);
            assert(m.chaff =~= Seq::<u8>::empty());
        }
    }
    assert(m7 == m);
}

/// Decoding a field starting with an unknown varint field, or a varint in
/// place of diff or chaff, is decoding what follows it: the field is skipped.
pub proof fn transport_skips_unknown_varint(field: u64, value: u64, s: Seq<u8>)
    requires
        field < 0x2000_0000_0000_0000,
        field == 0 || field > 5,
    ensures
        transport_decoding(varint_field(field as nat, value as nat) + s) == transport_decoding(s),
{
    lemma_fold_varint(field, value, s, transport_known(), empty_transport(), transport_stepper());
}

/// The lengths in an encoding fit in a 64-bit varint with room for the
/// headers around them.
pub open spec fn fits_headers(len: nat) -> bool {
    len + 256 <= u64::MAX
}

/// What of a user instruction its encoding carries: the keys, and the
/// size when it is sent (either dimension positive), else 0 by 0.
pub open spec fn user_as_sent(u: UserModel) -> UserModel {
    if has_resize(u.width, u.height) {
        u
    } else {
        UserModel { width: 0, height: 0, ..u }
    }
}

/// What of a host instruction its encoding carries: the host string, the
/// size when it is sent, else 0 by 0, and the echo ack number when it is
/// not negative, else -1 (absent).
pub open spec fn host_as_sent(h: HostModel) -> HostModel {
    HostModel {
        hoststring: h.hoststring,
        width: if has_resize(h.width, h.height) {
            h.width
        } else {
            0
        },
        height: if has_resize(h.width, h.height) {
            h.height
        } else {
            0
        },
        echo_ack_num: if h.echo_ack_num >= 0 {
            h.echo_ack_num
        } else {
            -1i64
        },
    }
}

/// `user_as_sent` of each instruction.
pub open spec fn users_as_sent(xs: Seq<UserModel>) -> Seq<UserModel> {
    xs.map_values(|u: UserModel| user_as_sent(u))
}

/// `host_as_sent` of each instruction.
pub open spec fn hosts_as_sent(xs: Seq<HostModel>) -> Seq<HostModel> {
    xs.map_values(|h: HostModel| host_as_sent(h))
}

pub(crate) proof fn lemma_varint_field_len(field: nat, value: nat)
    requires
        field < 0x2000_0000_0000_0000,
        value <= u64::MAX,
    ensures
        varint_field(field, value).len() <= 20,
{
    lemma_varint_len(field * 8);
    lemma_varint_len(value);
}

pub(crate) proof fn lemma_bytes_field_len(field: nat, payload: Seq<u8>)
    requires
        field < 0x2000_0000_0000_0000,
        payload.len() <= u64::MAX,
    ensures
        bytes_field(field, payload).len() <= payload.len() + 20,
{
    lemma_varint_len(field * 8 + 2);
    lemma_varint_len(payload.len());
}

proof fn lemma_resize_encoding_len(width: i32, height: i32)
    ensures
        resize_encoding(width, height).len() <= 40,
{
    lemma_varint_field_len(5, (width as u32) as nat);
    lemma_varint_field_len(6, (height as u32) as nat);
}

/// A `ResizeMessage` comes back with its dimensions.
pub(crate) proof fn lemma_resize_roundtrip(width: i32, height: i32, wh: (i32, i32))
    ensures
        resize_decoding(resize_encoding(width, height), wh) == Outcome::Done((width, height)),
{
    let k = Seq::<u64>::empty();
    let st = crate::pb::resize_stepper();
    let e = Seq::<u8>::empty();
    let w = (width as u32) as u64;
    let h = (height as u32) as u64;
    let s6 = varint_field(6, h as nat) + e;
    assert(resize_encoding(width, height) =~= varint_field(5, w as nat) + s6);
    assert(w as i32 == width && h as i32 == height) by (bit_vector)
        requires
            w == (width as u32) as u64,
            h == (height as u32) as u64,
    ;
    assert(fold_fields(varint_field(5, w as nat) + s6, k, wh, st) == fold_fields(
        s6,
        k,
        (width, wh.1),
        st,
    )) by {
        lemma_fold_varint(5, w, s6, k, wh, st);
    }
    assert(fold_fields(s6, k, (width, wh.1), st) == fold_fields(e, k, (width, height), st)) by {
        lemma_fold_varint(6, h, e, k, (width, wh.1), st);
    }
}

/// A `Keystroke` adds its keys to those held.
pub(crate) proof fn lemma_keystroke_roundtrip(keys: Seq<u8>, held: Seq<u8>)
    requires
        keys.len() <= u64::MAX,
    ensures
        keystroke_decoding(bytes_field(4, keys), held) == Outcome::Done(held + keys),
{
    let k = crate::pb::keystroke_known();
    assert(k.contains(4u64)) by {
        assert(k[0] == 4);
    }
    let e = Seq::<u8>::empty();
    assert(bytes_field(4, keys) + e =~= bytes_field(4, keys));
    lemma_fold_bytes(4, keys, e, k, held, crate::pb::keystroke_stepper());
}

/// A `HostBytes` replaces the host string held.
pub(crate) proof fn lemma_host_bytes_roundtrip(hs: Seq<u8>, held: Seq<u8>)
    requires
        hs.len() <= u64::MAX,
    ensures
        host_bytes_decoding(bytes_field(4, hs), held) == Outcome::Done(hs),
{
    let k = crate::pb::host_bytes_known();
    assert(k.contains(4u64)) by {
        assert(k[0] == 4);
    }
    let e = Seq::<u8>::empty();
    assert(bytes_field(4, hs) + e =~= bytes_field(4, hs));
    lemma_fold_bytes(4, hs, e, k, held, crate::pb::host_bytes_stepper());
}

/// An `EchoAck` of a non-negative number comes back with it.
proof fn lemma_echo_roundtrip(n: i64, held: i64)
    requires
        n >= 0,
    ensures
        echo_decoding(varint_field(8, n as nat), held) == Outcome::Done(n),
{
    let e = Seq::<u8>::empty();
    assert(varint_field(8, n as nat) + e =~= varint_field(8, n as nat));
    let v = n as u64;
    assert(v as i64 == n) by (bit_vector)
        requires
            n >= 0,
            v == n as u64,
    ;
    lemma_fold_varint(8, v, e, crate::pb::echo_known(), held, crate::pb::echo_stepper());
}

proof fn lemma_user_encoding_len(u: UserModel)
    requires
        fits_headers(u.keys.len()),
    ensures
        user_instruction_encoding(u).len() <= u.keys.len() + 200,
        bytes_field(4, u.keys).len() <= u.keys.len() + 20,
{
    lemma_bytes_field_len(4, u.keys);
    lemma_bytes_field_len(2, bytes_field(4, u.keys));
    lemma_resize_encoding_len(u.width, u.height);
    lemma_bytes_field_len(3, resize_encoding(u.width, u.height));
}

/// One user instruction comes back from its encoding.
proof fn lemma_user_instruction_roundtrip(u: UserModel)
    requires
        fits_headers(u.keys.len()),
    ensures
        user_instruction_decoding(user_instruction_encoding(u)) == Outcome::Done(user_as_sent(u)),
{
    let k = crate::pb::user_known();
    let st = user_stepper();
    let e = Seq::<u8>::empty();
    assert(k.contains(2u64)) by {
        assert(k[0] == 2);
    }
    assert(k.contains(3u64)) by {
        assert(k[1] == 3);
    }
    lemma_user_encoding_len(u);
    let ok = optional(u.keys.len() > 0, bytes_field(2, bytes_field(4, u.keys)));
    let rs = optional(has_resize(u.width, u.height), bytes_field(3, resize_encoding(u.width, u.height)));
    let s2 = rs + e;
    assert(user_instruction_encoding(u) =~= ok + s2);
    let u1 = UserModel { keys: u.keys, ..empty_user() };
    assert(fold_fields(ok + s2, k, empty_user(), st) == fold_fields(s2, k, u1, st)) by {
        if u.keys.len() > 0 {
            lemma_fold_bytes(2, bytes_field(4, u.keys), s2, k, empty_user(), st);
            lemma_keystroke_roundtrip(u.keys, Seq::empty());
            assert(Seq::<u8>::empty() + u.keys =~= u.keys);
        } else {
            assert(ok + s2 =~= s2);
            assert(u.keys =~= Seq::<u8>::empty());
        }
    }
    assert(fold_fields(s2, k, u1, st) == fold_fields(e, k, user_as_sent(u), st)) by {
        if has_resize(u.width, u.height) {
            lemma_resize_encoding_len(u.width, u.height);
            lemma_fold_bytes(3, resize_encoding(u.width, u.height), e, k, u1, st);
            lemma_resize_roundtrip(u.width, u.height, (u1.width, u1.height));
        } else {
            assert(s2 =~= e);
        }
    }
}

proof fn lemma_host_encoding_len(h: HostModel)
    requires
        fits_headers(h.hoststring.len()),
    ensures
        host_instruction_encoding(h).len() <= h.hoststring.len() + 200,
        bytes_field(4, h.hoststring).len() <= h.hoststring.len() + 20,
{
    lemma_bytes_field_len(4, h.hoststring);
    lemma_bytes_field_len(2, bytes_field(4, h.hoststring));
    lemma_resize_encoding_len(h.width, h.height);
    lemma_bytes_field_len(3, resize_encoding(h.width, h.height));
    if h.echo_ack_num >= 0 {
        lemma_varint_field_len(8, h.echo_ack_num as nat);
        lemma_bytes_field_len(7, varint_field(8, h.echo_ack_num as nat));
    }
}

/// One host instruction comes back from its encoding.
proof fn lemma_host_instruction_roundtrip(h: HostModel)
    requires
        fits_headers(h.hoststring.len()),
    ensures
        host_instruction_decoding(host_instruction_encoding(h)) == Outcome::Done(host_as_sent(h)),
{
    let k = crate::pb::host_known();
    let st = host_stepper();
    let e = Seq::<u8>::empty();
    assert(k.contains(2u64) && k.contains(3u64) && k.contains(7u64)) by {
        assert(k[0] == 2 && k[1] == 3 && k[2] == 7);
    }
    lemma_host_encoding_len(h);
    let ob = optional(h.hoststring.len() > 0, bytes_field(2, bytes_field(4, h.hoststring)));
    let rs = optional(has_resize(h.width, h.height), bytes_field(3, resize_encoding(h.width, h.height)));
    let ec = optional(h.echo_ack_num >= 0, bytes_field(7, varint_field(8, h.echo_ack_num as nat)));
    let s3 = ec + e;
    let s2 = rs + s3;
    assert(host_instruction_encoding(h) =~= ob + s2);
    let h1 = HostModel { hoststring: h.hoststring, ..blank_host() };
    assert(fold_fields(ob + s2, k, blank_host(), st) == fold_fields(s2, k, h1, st)) by {
        if h.hoststring.len() > 0 {
            lemma_fold_bytes(2, bytes_field(4, h.hoststring), s2, k, blank_host(), st);
            lemma_host_bytes_roundtrip(h.hoststring, Seq::empty());
        } else {
            assert(ob + s2 =~= s2);
            assert(h.hoststring =~= Seq::<u8>::empty());
        }
    }
    let h2 = HostModel { width: host_as_sent(h).width, height: host_as_sent(h).height, ..h1 };
    assert(fold_fields(s2, k, h1, st) == fold_fields(s3, k, h2, st)) by {
        if has_resize(h.width, h.height) {
            lemma_resize_encoding_len(h.width, h.height);
            lemma_fold_bytes(3, resize_encoding(h.width, h.height), s3, k, h1, st);
            lemma_resize_roundtrip(h.width, h.height, (h1.width, h1.height));
        } else {
            assert(s2 =~= s3);
        }
    }
    assert(fold_fields(s3, k, h2, st) == fold_fields(e, k, host_as_sent(h), st)) by {
        if h.echo_ack_num >= 0 {
            lemma_varint_field_len(8, h.echo_ack_num as nat);
            lemma_fold_bytes(7, varint_field(8, h.echo_ack_num as nat), e, k, h2, st);
            lemma_echo_roundtrip(h.echo_ack_num, h2.echo_ack_num);
        } else {
            assert(s3 =~= e);
        }
    }
}

proof fn lemma_user_message_fold(xs: Seq<UserModel>, acc: Seq<UserModel>)
    requires
        forall|i: int| 0 <= i < xs.len() ==> fits_headers(#[trigger] xs[i].keys.len()),
    ensures
        fold_fields(user_message_encoding(xs), message_known(), acc, user_message_stepper())
            == Outcome::Done(acc + users_as_sent(xs)),
    decreases xs.len(),
{
    let k = message_known();
    assert(k.contains(1u64)) by {
        assert(k[0] == 1);
    }
    if xs.len() == 0 {
        assert(user_message_encoding(xs) =~= Seq::<u8>::empty());
        assert(acc + users_as_sent(xs) =~= acc);
    } else {
        let x = xs[0];
        let rest = xs.drop_first();
        assert(fits_headers(xs[0].keys.len()));
        lemma_user_encoding_len(x);
        assert(user_message_encoding(xs) == bytes_field(1, user_instruction_encoding(x))
            + user_message_encoding(rest));
        lemma_fold_bytes(
            1,
            user_instruction_encoding(x),
            user_message_encoding(rest),
            k,
            acc,
            user_message_stepper(),
        );
        lemma_user_instruction_roundtrip(x);
        assert forall|i: int| 0 <= i < rest.len() implies fits_headers(
            #[trigger] rest[i].keys.len(),
        ) by {
            assert(rest[i] == xs[i + 1]);
        }
        lemma_user_message_fold(rest, acc.push(user_as_sent(x)));
        assert(acc.push(user_as_sent(x)) + users_as_sent(rest) =~= acc + users_as_sent(xs));
    }
}

/// Decoding what `UserInstruction::encode_message` wrote gives back the
/// instructions in order, each as its encoding carries it: a size that is
/// not sent comes back 0 by 0 (so an instruction whose size is sent, or is
/// 0 by 0, comes back unchanged).
pub proof fn user_message_roundtrip(xs: Seq<UserModel>)
    requires
        forall|i: int| 0 <= i < xs.len() ==> fits_headers(#[trigger] xs[i].keys.len()),
    ensures
        user_message_decoding(user_message_encoding(xs)) == Outcome::Done(users_as_sent(xs)),
{
    lemma_user_message_fold(xs, Seq::empty());
    assert(Seq::<UserModel>::empty() + users_as_sent(xs) =~= users_as_sent(xs));
}

proof fn lemma_host_message_fold(xs: Seq<HostModel>, acc: Seq<HostModel>)
    requires
        forall|i: int| 0 <= i < xs.len() ==> fits_headers(#[trigger] xs[i].hoststring.len()),
    ensures
        fold_fields(host_message_encoding(xs), message_known(), acc, host_message_stepper())
            == Outcome::Done(acc + hosts_as_sent(xs)),
    decreases xs.len(),
{
    let k = message_known();
    assert(k.contains(1u64)) by {
        assert(k[0] == 1);
    }
    if xs.len() == 0 {
        assert(host_message_encoding(xs) =~= Seq::<u8>::empty());
        assert(acc + hosts_as_sent(xs) =~= acc);
    } else {
        let x = xs[0];
        let rest = xs.drop_first();
        assert(fits_headers(xs[0].hoststring.len()));
        lemma_host_encoding_len(x);
        assert(host_message_encoding(xs) == bytes_field(1, host_instruction_encoding(x))
            + host_message_encoding(rest));
        lemma_fold_bytes(
            1,
            host_instruction_encoding(x),
            host_message_encoding(rest),
            k,
            acc,
            host_message_stepper(),
        );
        lemma_host_instruction_roundtrip(x);
        assert forall|i: int| 0 <= i < rest.len() implies fits_headers(
            #[trigger] rest[i].hoststring.len(),
        ) by {
            assert(rest[i] == xs[i + 1]);
        }
        lemma_host_message_fold(rest, acc.push(host_as_sent(x)));
        assert(acc.push(host_as_sent(x)) + hosts_as_sent(rest) =~= acc + hosts_as_sent(xs));
    }
}

/// Decoding what `HostInstruction::encode_message` wrote gives back the
/// instructions in order, each as its encoding carries it: a size that is
/// not sent comes back 0 by 0 and a negative echo ack number as -1.
pub proof fn host_message_roundtrip(xs: Seq<HostModel>)
    requires
        forall|i: int| 0 <= i < xs.len() ==> fits_headers(#[trigger] xs[i].hoststring.len()),
    ensures
        host_message_decoding(host_message_encoding(xs)) == Outcome::Done(hosts_as_sent(xs)),
{
    lemma_host_message_fold(xs, Seq::empty());
    assert(Seq::<HostModel>::empty() + hosts_as_sent(xs) =~= hosts_as_sent(xs));
}

/// A `UserMessage` is a repeated field: a message that decodes to `x`
/// followed by another decodes to `x` followed by what the other gives.
pub proof fn user_message_concat(a: Seq<u8>, b: Seq<u8>, x: Seq<UserModel>)
    requires
        user_message_decoding(a) == Outcome::Done(x),
    ensures
        user_message_decoding(a + b) == prepend_outcome(x, user_message_decoding(b)),
{
    let st = user_message_stepper();
    assert(appends(st)) by {
        assert forall|p: Seq<UserModel>, q: Seq<UserModel>, f: u64, v: FieldValue|
            #[trigger] st(p + q, f, v) == prepend_outcome(p, st(q, f, v)) by {
            if let FieldValue::Bytes(bs) = v {
                if f == 1 {
                    if let Outcome::Done(u) = user_instruction_decoding(bs) {
                        assert((p + q).push(u) =~= p + q.push(u));
                    }
                }
            }
        }
    }
    lemma_fold_concat(a, b, message_known(), Seq::empty(), st);
    lemma_fold_prepend(b, message_known(), x, Seq::empty(), st);
    assert(x + Seq::<UserModel>::empty() =~= x);
}

/// A `HostMessage` is a repeated field: a message that decodes to `x`
/// followed by another decodes to `x` followed by what the other gives.
pub proof fn host_message_concat(a: Seq<u8>, b: Seq<u8>, x: Seq<HostModel>)
    requires
        host_message_decoding(a) == Outcome::Done(x),
    ensures
        host_message_decoding(a + b) == prepend_outcome(x, host_message_decoding(b)),
{
    let st = host_message_stepper();
    assert(appends(st)) by {
        assert forall|p: Seq<HostModel>, q: Seq<HostModel>, f: u64, v: FieldValue|
            #[trigger] st(p + q, f, v) == prepend_outcome(p, st(q, f, v)) by {
            if let FieldValue::Bytes(bs) = v {
                if f == 1 {
                    if let Outcome::Done(h) = host_instruction_decoding(bs) {
                        assert((p + q).push(h) =~= p + q.push(h));
                    }
                }
            }
        }
    }
    lemma_fold_concat(a, b, message_known(), Seq::empty(), st);
    lemma_fold_prepend(b, message_known(), x, Seq::empty(), st);
    assert(x + Seq::<HostModel>::empty() =~= x);
}

} // verus!
