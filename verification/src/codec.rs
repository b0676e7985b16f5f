//! The byte codec for both closed message sets and the carrier envelope.
//!
//! Every value has exactly one encoding: a one-byte tag picks the variant,
//! and every field is fixed-width little-endian, so a message's length is
//! known from its tag alone. A decoder returns `None` on anything that is
//! not the encoding of a value; the transport layer drops such datagrams
//! silently.

use vstd::prelude::*;
use crate::protocol::{
    Color, Vec2, Spaceship, ClientToServerMessage, ServerToClientMessage,
};

verus! {

/// The two little-endian bytes of `x`.
pub open spec fn u16_le(x: u16) -> Seq<u8> {
    seq![(x & 0xff) as u8, ((x >> 8) & 0xff) as u8]
}

/// A `u16` read back from two little-endian bytes.
pub open spec fn u16_from(b0: u8, b1: u8) -> u16 {
    (b0 as u16) | ((b1 as u16) << 8)
}

/// The four little-endian bytes of `x`.
pub open spec fn u32_le(x: u32) -> Seq<u8> {
    seq![
        (x & 0xff) as u8,
        ((x >> 8) & 0xff) as u8,
        ((x >> 16) & 0xff) as u8,
        ((x >> 24) & 0xff) as u8,
    ]
}

/// A `u32` read back from four little-endian bytes.
pub open spec fn u32_from(b0: u8, b1: u8, b2: u8, b3: u8) -> u32 {
    (b0 as u32) | ((b1 as u32) << 8) | ((b2 as u32) << 16) | ((b3 as u32) << 24)
}

/// An `i32` laid out as its two's-complement bit pattern, little-endian.
pub open spec fn i32_le(x: i32) -> Seq<u8> {
    u32_le(x as u32)
}

/// An `i32` read back from four little-endian bytes.
pub open spec fn i32_from(b0: u8, b1: u8, b2: u8, b3: u8) -> i32 {
    u32_from(b0, b1, b2, b3) as i32
}

/// The eight little-endian bytes of `x`.
pub open spec fn u64_le(x: u64) -> Seq<u8> {
    seq![
        (x & 0xff) as u8,
        ((x >> 8) & 0xff) as u8,
        ((x >> 16) & 0xff) as u8,
        ((x >> 24) & 0xff) as u8,
        ((x >> 32) & 0xff) as u8,
        ((x >> 40) & 0xff) as u8,
        ((x >> 48) & 0xff) as u8,
        ((x >> 56) & 0xff) as u8,
    ]
}

/// A `u64` read back from eight little-endian bytes.
pub open spec fn u64_from(
    b0: u8,
    b1: u8,
    b2: u8,
    b3: u8,
    b4: u8,
    b5: u8,
    b6: u8,
    b7: u8,
) -> u64 {
    (b0 as u64) | ((b1 as u64) << 8) | ((b2 as u64) << 16) | ((b3 as u64) << 24) | ((b4 as u64)
        << 32) | ((b5 as u64) << 40) | ((b6 as u64) << 48) | ((b7 as u64) << 56)
}

/// Reading back the two bytes of `x` yields `x`.
pub proof fn lemma_u16_round(x: u16)
    ensures
        u16_from((x & 0xff) as u8, ((x >> 8) & 0xff) as u8) == x,
{
    assert((((x & 0xff) as u8) as u16) | (((((x >> 8) & 0xff) as u8) as u16) << 8) == x)
        by (bit_vector);
}

/// Reading back the four bytes of `x` yields `x`.
pub proof fn lemma_u32_round(x: u32)
    ensures
        u32_from(
            (x & 0xff) as u8,
            ((x >> 8) & 0xff) as u8,
            ((x >> 16) & 0xff) as u8,
            ((x >> 24) & 0xff) as u8,
        ) == x,
{
    assert((((x & 0xff) as u8) as u32) | (((((x >> 8) & 0xff) as u8) as u32) << 8) | (((((x >> 16)
        & 0xff) as u8) as u32) << 16) | (((((x >> 24) & 0xff) as u8) as u32) << 24) == x)
        by (bit_vector);
}

/// Reading back the bit pattern of `x` yields `x`.
pub proof fn lemma_i32_round(x: i32)
    ensures
        i32_from(
            ((x as u32) & 0xff) as u8,
            (((x as u32) >> 8) & 0xff) as u8,
            (((x as u32) >> 16) & 0xff) as u8,
            (((x as u32) >> 24) & 0xff) as u8,
        ) == x,
{
    lemma_u32_round(x as u32);
    assert(((x as u32) as i32) == x) by (bit_vector);
}

/// Reading back the eight bytes of `x` yields `x`.
pub proof fn lemma_u64_round(x: u64)
    ensures
        u64_from(
            (x & 0xff) as u8,
            ((x >> 8) & 0xff) as u8,
            ((x >> 16) & 0xff) as u8,
            ((x >> 24) & 0xff) as u8,
            ((x >> 32) & 0xff) as u8,
            ((x >> 40) & 0xff) as u8,
            ((x >> 48) & 0xff) as u8,
            ((x >> 56) & 0xff) as u8,
        ) == x,
{
    assert((((x & 0xff) as u8) as u64) | (((((x >> 8) & 0xff) as u8) as u64) << 8) | (((((x >> 16)
        & 0xff) as u8) as u64) << 16) | (((((x >> 24) & 0xff) as u8) as u64) << 24) | (((((x >> 32)
        & 0xff) as u8) as u64) << 32) | (((((x >> 40) & 0xff) as u8) as u64) << 40) | (((((x >> 48)
        & 0xff) as u8) as u64) << 48) | (((((x >> 56) & 0xff) as u8) as u64) << 56) == x)
        by (bit_vector);
}

/// Encoding of an entity: identity, color, position, velocity, rotation,
/// 25 bytes in all.
pub open spec fn enc_ship(s: Spaceship) -> Seq<u8> {
    u16_le(s.id) + seq![s.color.r, s.color.g, s.color.b] + i32_le(s.position.x) + i32_le(
        s.position.y,
    ) + i32_le(s.velocity.x) + i32_le(s.velocity.y) + i32_le(s.rotation)
}

/// The entity read back from a 25-byte window.
pub open spec fn dec_ship(b: Seq<u8>) -> Spaceship
    recommends
        b.len() == 25,
{
    Spaceship {
        id: u16_from(b[0], b[1]),
        color: Color { r: b[2], g: b[3], b: b[4] },
        position: Vec2 {
            x: i32_from(b[5], b[6], b[7], b[8]),
            y: i32_from(b[9], b[10], b[11], b[12]),
        },
        velocity: Vec2 {
            x: i32_from(b[13], b[14], b[15], b[16]),
            y: i32_from(b[17], b[18], b[19], b[20]),
        },
        rotation: i32_from(b[21], b[22], b[23], b[24]),
    }
}

/// Reading back an encoded entity yields the entity.
pub proof fn lemma_ship_round(s: Spaceship)
    ensures
        enc_ship(s).len() == 25,
        dec_ship(enc_ship(s)) == s,
{
    lemma_u16_round(s.id);
    lemma_i32_round(s.position.x);
    lemma_i32_round(s.position.y);
    lemma_i32_round(s.velocity.x);
    lemma_i32_round(s.velocity.y);
    lemma_i32_round(s.rotation);
}

/// Encoding of a client-to-server message: a tag byte, then the payload.
pub open spec fn enc_c2s(m: ClientToServerMessage) -> Seq<u8> {
    match m {
        ClientToServerMessage::Hello => seq![1u8],
        ClientToServerMessage::UpdateSpaceship(s) => seq![2u8] + enc_ship(s),
        ClientToServerMessage::Goodbye => seq![3u8],
    }
}

/// The client-to-server message a byte string encodes, if any.
pub open spec fn dec_c2s(b: Seq<u8>) -> Option<ClientToServerMessage> {
    if b.len() == 1 && b[0] == 1 {
        Some(ClientToServerMessage::Hello)
    } else if b.len() == 26 && b[0] == 2 {
        Some(ClientToServerMessage::UpdateSpaceship(dec_ship(b.skip(1))))
    } else if b.len() == 1 && b[0] == 3 {
        Some(ClientToServerMessage::Goodbye)
    } else {
        None
    }
}

/// Every client-to-server message survives an encode-decode round trip.
pub proof fn lemma_c2s_round_trip(m: ClientToServerMessage)
    ensures
        dec_c2s(enc_c2s(m)) == Some(m),
{
    match m {
        ClientToServerMessage::UpdateSpaceship(s) => {
            lemma_ship_round(s);
            assert((seq![2u8] + enc_ship(s)).skip(1) =~= enc_ship(s));
        },
        _ => {},
    }
}

/// Encoding of a server-to-client message: a tag byte, then the payload.
pub open spec fn enc_s2c(m: ServerToClientMessage) -> Seq<u8> {
    match m {
        ServerToClientMessage::AssignSpaceship(id) => seq![1u8] + u16_le(id),
        ServerToClientMessage::UpdateSpaceship(s) => seq![2u8] + enc_ship(s),
        ServerToClientMessage::AddSpaceship(s) => seq![3u8] + enc_ship(s),
        ServerToClientMessage::RemoveSpaceship(id) => seq![4u8] + u16_le(id),
        ServerToClientMessage::Goodbye => seq![5u8],
    }
}

/// The server-to-client message a byte string encodes, if any.
pub open spec fn dec_s2c(b: Seq<u8>) -> Option<ServerToClientMessage> {
    if b.len() == 3 && b[0] == 1 {
        Some(ServerToClientMessage::AssignSpaceship(u16_from(b[1], b[2])))
    } else if b.len() == 26 && b[0] == 2 {
        Some(ServerToClientMessage::UpdateSpaceship(dec_ship(b.skip(1))))
    } else if b.len() == 26 && b[0] == 3 {
        Some(ServerToClientMessage::AddSpaceship(dec_ship(b.skip(1))))
    } else if b.len() == 3 && b[0] == 4 {
        Some(ServerToClientMessage::RemoveSpaceship(u16_from(b[1], b[2])))
    } else if b.len() == 1 && b[0] == 5 {
        Some(ServerToClientMessage::Goodbye)
    } else {
        None
    }
}

/// Every server-to-client message survives an encode-decode round trip.
pub proof fn lemma_s2c_round_trip(m: ServerToClientMessage)
    ensures
        dec_s2c(enc_s2c(m)) == Some(m),
{
    match m {
        ServerToClientMessage::AssignSpaceship(id) => {
            lemma_u16_round(id);
        },
        ServerToClientMessage::UpdateSpaceship(s) => {
            lemma_ship_round(s);
            assert((seq![2u8] + enc_ship(s)).skip(1) =~= enc_ship(s));
        },
        ServerToClientMessage::AddSpaceship(s) => {
            lemma_ship_round(s);
            assert((seq![3u8] + enc_ship(s)).skip(1) =~= enc_ship(s));
        },
        ServerToClientMessage::RemoveSpaceship(id) => {
            lemma_u16_round(id);
        },
        ServerToClientMessage::Goodbye => {},
    }
}

/// Length of a server-to-client message, read off its tag byte; 0 marks an
/// invalid tag.
pub open spec fn s2c_len(tag: u8) -> int {
    if tag == 1 {
        3
    } else if tag == 2 {
        26
    } else if tag == 3 {
        26
    } else if tag == 4 {
        3
    } else if tag == 5 {
        1
    } else {
        0
    }
}

/// A batch laid out back to back, first message first.
pub open spec fn enc_s2c_list(ms: Seq<ServerToClientMessage>) -> Seq<u8>
    decreases ms.len(),
{
    if ms.len() == 0 {
        Seq::empty()
    } else {
        enc_s2c(ms[0]) + enc_s2c_list(ms.skip(1))
    }
}

/// Parse `n` messages off the front of `b`; what follows them is handed
/// back unread.
pub open spec fn dec_s2c_list(b: Seq<u8>, n: nat) -> Option<
    (Seq<ServerToClientMessage>, Seq<u8>),
>
    decreases n,
{
    if n == 0 {
        Some((Seq::empty(), b))
    } else if b.len() == 0 {
        None
    } else {
        let l = s2c_len(b[0]);
        if l == 0 || b.len() < l {
            None
        } else {
            match dec_s2c(b.take(l)) {
                Some(m) => match dec_s2c_list(b.skip(l), (n - 1) as nat) {
                    Some((ms, rest)) => Some((seq![m] + ms, rest)),
                    None => None,
                },
                None => None,
            }
        }
    }
}

/// An encoded message starts with its own tag, whose length is its own.
pub proof fn lemma_enc_s2c_shape(m: ServerToClientMessage)
    ensures
        enc_s2c(m).len() == s2c_len(enc_s2c(m)[0]),
        s2c_len(enc_s2c(m)[0]) > 0,
{
}

/// Parsing `ms.len()` messages off an encoded batch yields the batch and
/// leaves exactly the trailing bytes.
pub proof fn lemma_s2c_list_round(ms: Seq<ServerToClientMessage>, rest: Seq<u8>)
    ensures
        dec_s2c_list(enc_s2c_list(ms) + rest, ms.len()) == Some((ms, rest)),
    decreases ms.len(),
{
    if ms.len() == 0 {
        assert(enc_s2c_list(ms) + rest =~= rest);
    } else {
        let e0 = enc_s2c(ms[0]);
        let b = enc_s2c_list(ms) + rest;
        lemma_enc_s2c_shape(ms[0]);
        lemma_s2c_round_trip(ms[0]);
        let l = e0.len() as int;
        assert(b[0] == e0[0]);
        assert(b.take(l) =~= e0);
        assert(b.skip(l) =~= enc_s2c_list(ms.skip(1)) + rest);
        lemma_s2c_list_round(ms.skip(1), rest);
        assert(seq![ms[0]] + ms.skip(1) =~= ms);
    }
}

/// Appending one message to a batch appends its encoding.
pub proof fn lemma_enc_list_push(ms: Seq<ServerToClientMessage>, m: ServerToClientMessage)
    ensures
        enc_s2c_list(ms.push(m)) == enc_s2c_list(ms) + enc_s2c(m),
    decreases ms.len(),
{
    reveal_with_fuel(enc_s2c_list, 2);
    if ms.len() == 0 {
        assert(ms.push(m)[0] == m);
        assert(ms.push(m).skip(1) =~= Seq::<ServerToClientMessage>::empty());
        assert(enc_s2c_list(ms.push(m)) =~= enc_s2c_list(ms) + enc_s2c(m));
    } else {
        assert(ms.push(m)[0] == ms[0]);
        assert(ms.push(m).skip(1) =~= ms.skip(1).push(m));
        lemma_enc_list_push(ms.skip(1), m);
        assert(enc_s2c_list(ms.push(m)) == enc_s2c(ms[0]) + enc_s2c_list(ms.skip(1).push(m)));
        assert(enc_s2c_list(ms.push(m)) =~= enc_s2c_list(ms) + enc_s2c(m));
    }
}

/// Encoding of a carrier: the shared batch behind its length, then one
/// presence byte, then — if present — the destination's own batch behind
/// its length.
pub open spec fn enc_carrier(c: crate::protocol::CarrierView) -> Seq<u8> {
    u64_le(c.general.len() as u64) + enc_s2c_list(c.general) + match c.specific {
        None => seq![0u8],
        Some(s) => seq![1u8] + u64_le(s.len() as u64) + enc_s2c_list(s),
    }
}

/// The carrier a byte string encodes, if any.
pub open spec fn dec_carrier(b: Seq<u8>) -> Option<crate::protocol::CarrierView> {
    if b.len() < 8 {
        None
    } else {
        let n = u64_from(b[0], b[1], b[2], b[3], b[4], b[5], b[6], b[7]);
        match dec_s2c_list(b.skip(8), n as nat) {
            None => None,
            Some((gen, rest)) => {
                if rest.len() == 0 {
                    None
                } else if rest[0] == 0 {
                    if rest.len() == 1 {
                        Some(crate::protocol::CarrierView { general: gen, specific: None })
                    } else {
                        None
                    }
                } else if rest[0] == 1 {
                    if rest.len() < 9 {
                        None
                    } else {
                        let m2 = u64_from(
                            rest[1],
                            rest[2],
                            rest[3],
                            rest[4],
                            rest[5],
                            rest[6],
                            rest[7],
                            rest[8],
                        );
                        match dec_s2c_list(rest.skip(9), m2 as nat) {
                            Some((sp, rest2)) => {
                                if rest2.len() == 0 {
                                    Some(
                                        crate::protocol::CarrierView {
                                            general: gen,
                                            specific: Some(sp),
                                        },
                                    )
                                } else {
                                    None
                                }
                            },
                            None => None,
                        }
                    }
                } else {
                    None
                }
            },
        }
    }
}

/// Every carrier of machine-representable size survives an encode-decode
/// round trip.
pub proof fn lemma_carrier_round_trip(c: crate::protocol::CarrierView)
    requires
        c.general.len() <= u64::MAX,
        c.specific matches Some(s) ==> s.len() <= u64::MAX,
    ensures
        dec_carrier(enc_carrier(c)) == Some(c),
{
    let n = c.general.len() as u64;
    lemma_u64_round(n);
    let b = enc_carrier(c);
    let tail = match c.specific {
        None => seq![0u8],
        Some(s) => seq![1u8] + u64_le(s.len() as u64) + enc_s2c_list(s),
    };
    assert forall|i: int| 0 <= i < 8 implies b[i] == u64_le(n)[i] by {}
    assert(b.len() >= 8);
    assert(u64_from(b[0], b[1], b[2], b[3], b[4], b[5], b[6], b[7]) == n);
    assert(b.skip(8) =~= enc_s2c_list(c.general) + tail);
    lemma_s2c_list_round(c.general, tail);
    let rest = tail;
    match c.specific {
        None => {
            assert(rest[0] == 0);
            assert(rest.len() == 1);
        },
        Some(s) => {
            let m2 = s.len() as u64;
            lemma_u64_round(m2);
            assert(rest[0] == 1);
            assert forall|i: int| 1 <= i < 9 implies rest[i] == u64_le(m2)[i - 1] by {}
            assert(u64_from(
                rest[1],
                rest[2],
                rest[3],
                rest[4],
                rest[5],
                rest[6],
                rest[7],
                rest[8],
            ) == m2);
            assert(rest.skip(9) =~= enc_s2c_list(s) + Seq::<u8>::empty());
            lemma_s2c_list_round(s, Seq::empty());
            assert(enc_s2c_list(s) + Seq::<u8>::empty() =~= enc_s2c_list(s));
        },
    }
}

fn write_u16(out: &mut Vec<u8>, x: u16)
    ensures
        final(out)@ == old(out)@ + u16_le(x),
{
    proof {
        assert((x & 0xff) < 256 && ((x >> 8) & 0xff) < 256) by (bit_vector);
    }
    out.push((x & 0xff) as u8);
    out.push(((x >> 8) & 0xff) as u8);
    assert(out@ =~= old(out)@ + u16_le(x));
}

fn write_i32(out: &mut Vec<u8>, x: i32)
    ensures
        final(out)@ == old(out)@ + i32_le(x),
{
    let u = #[verifier::truncate] (x as u32);
    proof {
        assert((u & 0xff) < 256 && ((u >> 8) & 0xff) < 256 && ((u >> 16) & 0xff) < 256 && ((u
            >> 24) & 0xff) < 256) by (bit_vector);
    }
    out.push((u & 0xff) as u8);
    out.push(((u >> 8) & 0xff) as u8);
    out.push(((u >> 16) & 0xff) as u8);
    out.push(((u >> 24) & 0xff) as u8);
    assert(out@ =~= old(out)@ + i32_le(x));
}

fn write_u64(out: &mut Vec<u8>, x: u64)
    ensures
        final(out)@ == old(out)@ + u64_le(x),
{
    proof {
        assert((x & 0xff) < 256 && ((x >> 8) & 0xff) < 256 && ((x >> 16) & 0xff) < 256 && ((x
            >> 24) & 0xff) < 256 && ((x >> 32) & 0xff) < 256 && ((x >> 40) & 0xff) < 256 && ((x
            >> 48) & 0xff) < 256 && ((x >> 56) & 0xff) < 256) by (bit_vector);
    }
    out.push((x & 0xff) as u8);
    out.push(((x >> 8) & 0xff) as u8);
    out.push(((x >> 16) & 0xff) as u8);
    out.push(((x >> 24) & 0xff) as u8);
    out.push(((x >> 32) & 0xff) as u8);
    out.push(((x >> 40) & 0xff) as u8);
    out.push(((x >> 48) & 0xff) as u8);
    out.push(((x >> 56) & 0xff) as u8);
    assert(out@ =~= old(out)@ + u64_le(x));
}

fn write_ship(out: &mut Vec<u8>, s: &Spaceship)
    ensures
        final(out)@ == old(out)@ + enc_ship(*s),
{
    write_u16(out, s.id);
    out.push(s.color.r);
    out.push(s.color.g);
    out.push(s.color.b);
    write_i32(out, s.position.x);
    write_i32(out, s.position.y);
    write_i32(out, s.velocity.x);
    write_i32(out, s.velocity.y);
    write_i32(out, s.rotation);
    assert(out@ =~= old(out)@ + enc_ship(*s));
}

/// Encode one client-to-server message.
pub fn encode_c2s(m: &ClientToServerMessage) -> (r: Vec<u8>)
    ensures
        r@ == enc_c2s(*m),
{
    let mut out: Vec<u8> = Vec::new();
    match m {
        ClientToServerMessage::Hello => {
            out.push(1);
            assert(out@ =~= enc_c2s(*m));
        },
        ClientToServerMessage::UpdateSpaceship(s) => {
            out.push(2);
            write_ship(&mut out, s);
            assert(out@ =~= enc_c2s(*m));
        },
        ClientToServerMessage::Goodbye => {
            out.push(3);
            assert(out@ =~= enc_c2s(*m));
        },
    }
    out
}

/// Append the encoding of one server-to-client message.
pub fn encode_s2c_into(out: &mut Vec<u8>, m: &ServerToClientMessage)
    ensures
        final(out)@ == old(out)@ + enc_s2c(*m),
{
    match m {
        ServerToClientMessage::AssignSpaceship(id) => {
            out.push(1);
            write_u16(out, *id);
            assert(out@ =~= old(out)@ + enc_s2c(*m));
        },
        ServerToClientMessage::UpdateSpaceship(s) => {
            out.push(2);
            write_ship(out, s);
            assert(out@ =~= old(out)@ + enc_s2c(*m));
        },
        ServerToClientMessage::AddSpaceship(s) => {
            out.push(3);
            write_ship(out, s);
            assert(out@ =~= old(out)@ + enc_s2c(*m));
        },
        ServerToClientMessage::RemoveSpaceship(id) => {
            out.push(4);
            write_u16(out, *id);
            assert(out@ =~= old(out)@ + enc_s2c(*m));
        },
        ServerToClientMessage::Goodbye => {
            out.push(5);
            assert(out@ =~= old(out)@ + enc_s2c(*m));
        },
    }
}

/// Encode one server-to-client message.
pub fn encode_s2c(m: &ServerToClientMessage) -> (r: Vec<u8>)
    ensures
        r@ == enc_s2c(*m),
{
    let mut out: Vec<u8> = Vec::new();
    encode_s2c_into(&mut out, m);
    assert(out@ =~= enc_s2c(*m));
    out
}

/// Encode a whole carrier for one transmission.
pub fn encode_carrier(c: &crate::protocol::MessageCarrier) -> (r: Vec<u8>)
    ensures
        r@ == enc_carrier(c@),
{
    let mut out: Vec<u8> = Vec::new();
    let n = c.general.len();
    write_u64(&mut out, n as u64);
    let mut i: usize = 0;
    while i < n
        invariant
            i <= n,
            n == c.general@.len(),
            out@ == u64_le(n as u64) + enc_s2c_list(c.general@.take(i as int)),
        decreases n - i,
    {
        encode_s2c_into(&mut out, &c.general[i]);
        proof {
            lemma_enc_list_push(c.general@.take(i as int), c.general@[i as int]);
            assert(c.general@.take(i + 1) =~= c.general@.take(i as int).push(
                c.general@[i as int],
            ));
            assert(out@ =~= u64_le(n as u64) + enc_s2c_list(c.general@.take(i + 1)));
        }
        i += 1;
    }
    proof {
        assert(c.general@.take(n as int) =~= c.general@);
    }
    match &c.specific {
        None => {
            out.push(0);
            assert(out@ =~= enc_carrier(c@));
        },
        Some(sp) => {
            out.push(1);
            let m2 = sp.len();
            write_u64(&mut out, m2 as u64);
            let ghost mid = out@;
            let mut j: usize = 0;
            while j < m2
                invariant
                    j <= m2,
                    m2 == sp@.len(),
                    out@ == mid + enc_s2c_list(sp@.take(j as int)),
                decreases m2 - j,
            {
                encode_s2c_into(&mut out, &sp[j]);
                proof {
                    lemma_enc_list_push(sp@.take(j as int), sp@[j as int]);
                    assert(sp@.take(j + 1) =~= sp@.take(j as int).push(sp@[j as int]));
                    assert(out@ =~= mid + enc_s2c_list(sp@.take(j + 1)));
                }
                j += 1;
            }
            proof {
                assert(sp@.take(m2 as int) =~= sp@);
                assert(out@ =~= enc_carrier(c@));
            }
        },
    }
    out
}

fn read_u16(b: &Vec<u8>, p: usize) -> (r: u16)
    requires
        p + 2 <= b.len(),
    ensures
        r == u16_from(b@[p as int], b@[p + 1]),
{
    (b[p] as u16) | ((b[p + 1] as u16) << 8)
}

fn read_i32(b: &Vec<u8>, p: usize) -> (r: i32)
    requires
        p + 4 <= b.len(),
    ensures
        r == i32_from(b@[p as int], b@[p + 1], b@[p + 2], b@[p + 3]),
{
    let u = (b[p] as u32) | ((b[p + 1] as u32) << 8) | ((b[p + 2] as u32) << 16) | ((b[p + 3]
        as u32) << 24);
    #[verifier::truncate] (u as i32)
}

fn read_u64(b: &Vec<u8>, p: usize) -> (r: u64)
    requires
        p + 8 <= b.len(),
    ensures
        r == u64_from(
            b@[p as int],
            b@[p + 1],
            b@[p + 2],
            b@[p + 3],
            b@[p + 4],
            b@[p + 5],
            b@[p + 6],
            b@[p + 7],
        ),
{
    (b[p] as u64) | ((b[p + 1] as u64) << 8) | ((b[p + 2] as u64) << 16) | ((b[p + 3] as u64)
        << 24) | ((b[p + 4] as u64) << 32) | ((b[p + 5] as u64) << 40) | ((b[p + 6] as u64) << 48)
        | ((b[p + 7] as u64) << 56)
}

fn read_ship(b: &Vec<u8>, p: usize) -> (r: Spaceship)
    requires
        p + 25 <= b.len(),
    ensures
        r == dec_ship(b@.subrange(p as int, p + 25)),
{
    let r = Spaceship {
        id: read_u16(b, p),
        color: Color { r: b[p + 2], g: b[p + 3], b: b[p + 4] },
        position: Vec2 { x: read_i32(b, p + 5), y: read_i32(b, p + 9) },
        velocity: Vec2 { x: read_i32(b, p + 13), y: read_i32(b, p + 17) },
        rotation: read_i32(b, p + 21),
    };
    proof {
        let w = b@.subrange(p as int, p + 25);
        assert(forall|i: int| 0 <= i < 25 ==> w[i] == b@[p + i]);
    }
    r
}

/// Decode one client-to-server message from a whole datagram; anything
/// that is not exactly one encoded message is `None`.
pub fn decode_c2s(bytes: &Vec<u8>) -> (r: Option<ClientToServerMessage>)
    ensures
        r == dec_c2s(bytes@),
{
    if bytes.len() == 1 {
        if bytes[0] == 1 {
            Some(ClientToServerMessage::Hello)
        } else if bytes[0] == 3 {
            Some(ClientToServerMessage::Goodbye)
        } else {
            None
        }
    } else if bytes.len() == 26 && bytes[0] == 2 {
        let s = read_ship(bytes, 1);
        proof {
            assert(bytes@.subrange(1, 26) =~= bytes@.skip(1));
        }
        Some(ClientToServerMessage::UpdateSpaceship(s))
    } else {
        None
    }
}

/// Decode one server-to-client message from a whole datagram.
pub fn decode_s2c(bytes: &Vec<u8>) -> (r: Option<ServerToClientMessage>)
    ensures
        r == dec_s2c(bytes@),
{
    if bytes.len() == 1 {
        if bytes[0] == 5 {
            Some(ServerToClientMessage::Goodbye)
        } else {
            None
        }
    } else if bytes.len() == 3 {
        if bytes[0] == 1 {
            Some(ServerToClientMessage::AssignSpaceship(read_u16(bytes, 1)))
        } else if bytes[0] == 4 {
            Some(ServerToClientMessage::RemoveSpaceship(read_u16(bytes, 1)))
        } else {
            None
        }
    } else if bytes.len() == 26 {
        if bytes[0] == 2 || bytes[0] == 3 {
            let s = read_ship(bytes, 1);
            proof {
                assert(bytes@.subrange(1, 26) =~= bytes@.skip(1));
            }
            if bytes[0] == 2 {
                Some(ServerToClientMessage::UpdateSpaceship(s))
            } else {
                Some(ServerToClientMessage::AddSpaceship(s))
            }
        } else {
            None
        }
    } else {
        None
    }
}

fn s2c_len_exec(tag: u8) -> (l: usize)
    ensures
        l == s2c_len(tag),
{
    if tag == 1 {
        3
    } else if tag == 2 {
        26
    } else if tag == 3 {
        26
    } else if tag == 4 {
        3
    } else if tag == 5 {
        1
    } else {
        0
    }
}

fn read_s2c(b: &Vec<u8>, p: usize, l: usize) -> (m: ServerToClientMessage)
    requires
        p < b.len(),
        l == s2c_len(b@[p as int]),
        l > 0,
        p + l <= b.len(),
    ensures
        dec_s2c(b@.subrange(p as int, p + l)) == Some(m),
{
    let ghost w = b@.subrange(p as int, p + l);
    proof {
        assert(forall|i: int| 0 <= i < l ==> w[i] == b@[p + i]);
    }
    let tag = b[p];
    if tag == 1 {
        ServerToClientMessage::AssignSpaceship(read_u16(b, p + 1))
    } else if tag == 2 {
        let s = read_ship(b, p + 1);
        proof {
            assert(w.skip(1) =~= b@.subrange(p + 1, p + 26));
        }
        ServerToClientMessage::UpdateSpaceship(s)
    } else if tag == 3 {
        let s = read_ship(b, p + 1);
        proof {
            assert(w.skip(1) =~= b@.subrange(p + 1, p + 26));
        }
        ServerToClientMessage::AddSpaceship(s)
    } else if tag == 4 {
        ServerToClientMessage::RemoveSpaceship(read_u16(b, p + 1))
    } else {
        ServerToClientMessage::Goodbye
    }
}

/// Parse `n` messages starting at `start`; on success, also the position
/// just past them.
fn decode_s2c_list(b: &Vec<u8>, start: usize, n: u64) -> (r: Option<
    (Vec<ServerToClientMessage>, usize),
>)
    requires
        start <= b.len(),
    ensures
        match r {
            Some(pair) => {
                &&& start <= pair.1 <= b@.len()
                &&& dec_s2c_list(b@.skip(start as int), n as nat) == Some(
                    (pair.0@, b@.skip(pair.1 as int)),
                )
            },
            None => dec_s2c_list(b@.skip(start as int), n as nat) is None,
        },
{
    let mut ms: Vec<ServerToClientMessage> = Vec::new();
    let mut p: usize = start;
    let mut k: u64 = 0;
    while k < n
        invariant
            start <= p <= b@.len(),
            k <= n,
            ({
                match dec_s2c_list(b@.skip(p as int), (n - k) as nat) {
                    Some(pr) => dec_s2c_list(b@.skip(start as int), n as nat) == Some(
                        (ms@ + pr.0, pr.1),
                    ),
                    None => dec_s2c_list(b@.skip(start as int), n as nat) is None,
                }
            }),
        decreases n - k,
    {
        let ghost w = b@.skip(p as int);
        if p == b.len() {
            return None;
        }
        proof {
            assert(w[0] == b@[p as int]);
        }
        let tag = b[p];
        let l = s2c_len_exec(tag);
        if l == 0 {
            return None;
        }
        if b.len() - p < l {
            proof {
                assert(w.len() < s2c_len(w[0]));
            }
            return None;
        }
        let m = read_s2c(b, p, l);
        proof {
            assert(w.take(l as int) =~= b@.subrange(p as int, p + l));
            assert(w.skip(l as int) =~= b@.skip(p + l));
        }
        let ghost old_ms = ms@;
        ms.push(m);
        p = p + l;
        k = k + 1;
        proof {
            match dec_s2c_list(b@.skip(p as int), (n - k) as nat) {
                Some(pr) => {
                    assert(old_ms + (seq![m] + pr.0) =~= ms@ + pr.0);
                },
                None => {},
            }
        }
    }
    proof {
        assert(ms@ + Seq::<ServerToClientMessage>::empty() =~= ms@);
    }
    Some((ms, p))
}

/// Decode a whole carrier from one datagram; anything that is not exactly
/// one encoded carrier is `None`.
pub fn decode_carrier(bytes: &Vec<u8>) -> (r: Option<crate::protocol::MessageCarrier>)
    ensures
        match r {
            Some(c) => dec_carrier(bytes@) == Some(c@),
            None => dec_carrier(bytes@) is None,
        },
{
    if bytes.len() < 8 {
        return None;
    }
    let n = read_u64(bytes, 0);
    let (gen, p) = match decode_s2c_list(bytes, 8, n) {
        Some(x) => x,
        None => {
            return None;
        },
    };
    let ghost rest = bytes@.skip(p as int);
    if p == bytes.len() {
        return None;
    }
    proof {
        assert(rest[0] == bytes@[p as int]);
    }
    let flag = bytes[p];
    if flag == 0 {
        if p + 1 == bytes.len() {
            Some(crate::protocol::MessageCarrier { general: gen, specific: None })
        } else {
            None
        }
    } else if flag == 1 {
        if bytes.len() - p < 9 {
            return None;
        }
        let m2 = read_u64(bytes, p + 1);
        proof {
            assert(forall|i: int| 1 <= i < 9 ==> rest[i] == bytes@[p + i]);
        }
        let (sp, p2) = match decode_s2c_list(bytes, p + 9, m2) {
            Some(x) => x,
            None => {
                proof {
                    assert(rest.skip(9) =~= bytes@.skip(p + 9));
                }
                return None;
            },
        };
        proof {
            assert(rest.skip(9) =~= bytes@.skip(p + 9));
        }
        if p2 == bytes.len() {
            Some(crate::protocol::MessageCarrier { general: gen, specific: Some(sp) })
        } else {
            None
        }
    } else {
        None
    }
}

} // verus!
