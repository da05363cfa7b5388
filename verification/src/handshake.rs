//! What the handshake parser promises of every stream of bytes.

use vstd::prelude::*;
use vstd::utf8::{decode_utf8, encode_utf8, valid_utf8};

use crate::shared::{
    before_nul, handshake, normalize, packet_address, packet_hostname, trim_dots, HandshakeView,
    MAX_HANDSHAKE_PACKET,
};
use crate::text::{lower, lower_char};
use crate::varint::{
    law_varint_round_trip, lemma_overlong_stays, lemma_varint_append, lemma_varint_range, low_i32,
    varint, varint_bytes, MAX_VARINT_LEN,
};

verus! {

/// The body of the handshake packet of a client that asks for `address`.
pub open spec fn handshake_body(
    protocol: nat,
    address: Seq<char>,
    port: u16,
    next_state: nat,
) -> Seq<u8> {
    varint_bytes(0) + (varint_bytes(protocol) + (varint_bytes(encode_utf8(address).len()) + (
    encode_utf8(address) + (seq![(port / 256) as u8, (port % 256) as u8] + varint_bytes(
        next_state,
    )))))
}

/// The handshake packet of a client that asks for `address`, as sent.
pub open spec fn handshake_packet(
    protocol: nat,
    address: Seq<char>,
    port: u16,
    next_state: nat,
) -> Seq<u8> {
    let body = handshake_body(protocol, address, port, next_state);
    varint_bytes(body.len()) + body
}

/// Once the parser has decided, further bytes do not change its decision.
pub proof fn law_decision_is_stable(buf: Seq<u8>, more: Seq<u8>)
    requires
        handshake(buf) !is NeedMore,
    ensures
        handshake(buf + more) == handshake(buf),
{
    if buf[0] != 0xFE {
        match varint(buf) {
            Some((len, n)) => {
                lemma_varint_append(buf, more);
                lemma_varint_range(buf);
                if 0 < len <= MAX_HANDSHAKE_PACKET {
                    assert((buf + more).subrange(n as int, n + len) =~= buf.subrange(
                        n as int,
                        n + len,
                    ));
                }
            },
            None => {
                lemma_overlong_stays(buf, more);
            },
        }
    }
}

/// However a stream is cut into reads, two parsers that both decide on it decide
/// alike.
pub proof fn law_decision_ignores_chunking(stream: Seq<u8>, i: int, j: int)
    requires
        0 <= i <= stream.len(),
        0 <= j <= stream.len(),
        handshake(stream.take(i)) !is NeedMore,
        handshake(stream.take(j)) !is NeedMore,
    ensures
        handshake(stream.take(i)) == handshake(stream.take(j)),
{
    law_decision_is_stable(stream.take(i), stream.skip(i));
    law_decision_is_stable(stream.take(j), stream.skip(j));
    assert(stream.take(i) + stream.skip(i) =~= stream);
    assert(stream.take(j) + stream.skip(j) =~= stream);
}

proof fn lemma_body(protocol: nat, address: Seq<char>, port: u16, next_state: nat)
    requires
        protocol < 0x1_0000_0000,
        next_state < 0x1_0000_0000,
        encode_utf8(address).len() <= 255,
    ensures
        ({
            let body = handshake_body(protocol, address, port, next_state);
            &&& 0 < body.len() <= MAX_HANDSHAKE_PACKET
            &&& packet_address(body) == Some(encode_utf8(address))
        }),
{
    let addr = encode_utf8(address);
    let tail = seq![(port / 256) as u8, (port % 256) as u8] + varint_bytes(next_state);
    let r3 = addr + tail;
    let r2 = varint_bytes(addr.len()) + r3;
    let r1 = varint_bytes(protocol) + r2;
    let body = handshake_body(protocol, address, port, next_state);
    assert(body == varint_bytes(0) + r1);
    law_varint_round_trip(0, r1);
    law_varint_round_trip(protocol, r2);
    law_varint_round_trip(addr.len(), r3);
    law_varint_round_trip(next_state, Seq::empty());
    let a = varint_bytes(0).len();
    let b = varint_bytes(protocol).len();
    let c = varint_bytes(addr.len()).len();
    assert(body.skip(a as int) =~= r1);
    assert(body.skip((a + b) as int) =~= r2);
    assert(low_i32(addr.len()) == addr.len());
    assert(body.subrange((a + b + c) as int, (a + b + c + addr.len()) as int) =~= addr);
}

/// The length of a handshake packet.
pub proof fn lemma_packet_len(protocol: nat, address: Seq<char>, port: u16, next_state: nat)
    requires
        protocol < 0x1_0000_0000,
        next_state < 0x1_0000_0000,
        encode_utf8(address).len() <= 255,
    ensures
        0 < handshake_packet(protocol, address, port, next_state).len() <= MAX_HANDSHAKE_PACKET
            + 5,
{
    let body = handshake_body(protocol, address, port, next_state);
    lemma_body(protocol, address, port, next_state);
    law_varint_round_trip(body.len(), body);
}

/// A client that asks for an address is understood: whatever follows the packet, the
/// parser reads the normalized address, and finds no handshake only where nothing is
/// left of the address after normalizing. Left out are the packets whose length is
/// written with a first byte of 0xFE, which read as an old ping.
pub proof fn law_handshake_round_trip(
    protocol: nat,
    address: Seq<char>,
    port: u16,
    next_state: nat,
    rest: Seq<u8>,
)
    requires
        protocol < 0x1_0000_0000,
        next_state < 0x1_0000_0000,
        encode_utf8(address).len() <= 255,
        handshake_packet(protocol, address, port, next_state)[0] != 0xFE,
    ensures
        handshake(handshake_packet(protocol, address, port, next_state) + rest) == (if normalize(
            address,
        ).len() > 0 {
            HandshakeView::Hostname(normalize(address))
        } else {
            HandshakeView::Invalid
        }),
{
    let body = handshake_body(protocol, address, port, next_state);
    let packet = handshake_packet(protocol, address, port, next_state);
    lemma_body(protocol, address, port, next_state);
    law_varint_round_trip(body.len(), body);
    assert(low_i32(body.len()) == body.len());
    let n = varint_bytes(body.len()).len();
    assert(packet.subrange(n as int, (n + body.len()) as int) =~= body);
    vstd::utf8::encode_utf8_valid_utf8(address);
    vstd::utf8::encode_utf8_decode_utf8(address);
    law_decision_is_stable(packet, rest);
}

/// A handshake that has not arrived whole is waited for.
#[verifier::spinoff_prover]
#[verifier::rlimit(40)]
pub proof fn law_truncated_needs_more(
    protocol: nat,
    address: Seq<char>,
    port: u16,
    next_state: nat,
    received: int,
)
    requires
        protocol < 0x1_0000_0000,
        next_state < 0x1_0000_0000,
        encode_utf8(address).len() <= 255,
        handshake_packet(protocol, address, port, next_state)[0] != 0xFE,
        0 <= received < handshake_packet(protocol, address, port, next_state).len(),
    ensures
        handshake(handshake_packet(protocol, address, port, next_state).take(received))
            is NeedMore,
{
    let body = handshake_body(protocol, address, port, next_state);
    let packet = handshake_packet(protocol, address, port, next_state);
    let part = packet.take(received);
    lemma_body(protocol, address, port, next_state);
    law_varint_round_trip(body.len(), body);
    assert(low_i32(body.len()) == body.len());
    assert(part + packet.skip(received) =~= packet);
    if varint(part) is Some {
        lemma_varint_append(part, packet.skip(received));
    } else if received >= MAX_VARINT_LEN {
        lemma_overlong_stays(part, packet.skip(received));
    }
}

proof fn lemma_before_nul(s: Seq<char>, extra: Seq<char>)
    requires
        forall|i: int| 0 <= i < s.len() ==> #[trigger] s[i] != '\0',
        extra.len() > 0 ==> extra[0] == '\0',
    ensures
        before_nul(s + extra) == s,
    decreases s.len(),
{
    if s.len() == 0 {
        assert(before_nul(s + extra) =~= s);
    } else {
        assert((s + extra).drop_first() =~= s.drop_first() + extra);
        lemma_before_nul(s.drop_first(), extra);
        assert(seq![s[0]] + s.drop_first() =~= s);
    }
}

proof fn lemma_trim_dots(s: Seq<char>, dots: nat)
    requires
        s.len() == 0 || s.last() != '.',
    ensures
        trim_dots(s + Seq::new(dots, |i: int| '.')) == s,
    decreases dots,
{
    let t = s + Seq::new(dots, |i: int| '.');
    if dots == 0 {
        assert(t =~= s);
    } else {
        assert(t.drop_last() =~= s + Seq::new((dots - 1) as nat, |i: int| '.'));
        lemma_trim_dots(s, (dots - 1) as nat);
    }
}

/// A player reaches a hostname in whatever case it is typed, with or without dots at
/// its end, and whatever a modded client appends after a NUL.
pub proof fn law_typed_forms_agree(
    typed: Seq<char>,
    hostname: Seq<char>,
    dots: nat,
    appended: Seq<char>,
)
    requires
        lower(typed) == hostname,
        hostname.len() > 0 ==> hostname.last() != '.',
        forall|i: int| 0 <= i < hostname.len() ==> #[trigger] hostname[i] != '\0',
        appended.len() > 0 ==> appended[0] == '\0',
    ensures
        normalize(typed + Seq::new(dots, |i: int| '.') + appended) == hostname,
{
    let dotted = typed + Seq::new(dots, |i: int| '.');
    assert forall|i: int| 0 <= i < dotted.len() implies #[trigger] dotted[i] != '\0' by {
        if i < typed.len() {
            assert(hostname[i] == lower_char(typed[i]));
        }
    }
    lemma_before_nul(dotted, appended);
    if typed.len() > 0 {
        assert(hostname.last() == lower_char(typed.last()));
    }
    lemma_trim_dots(typed, dots);
}

proof fn lemma_before_nul_has_none(s: Seq<char>)
    ensures
        forall|i: int| 0 <= i < before_nul(s).len() ==> #[trigger] before_nul(s)[i] != '\0',
    decreases s.len(),
{
    if s.len() > 0 && s[0] != '\0' {
        lemma_before_nul_has_none(s.drop_first());
        let r = before_nul(s.drop_first());
        assert forall|i: int| 0 <= i < before_nul(s).len() implies #[trigger] before_nul(s)[i]
            != '\0' by {
            if i > 0 {
                assert(before_nul(s)[i] == r[i - 1]);
            }
        }
    }
}

proof fn lemma_trim_dots_prefix(s: Seq<char>)
    ensures
        trim_dots(s).len() <= s.len(),
        forall|i: int| 0 <= i < trim_dots(s).len() ==> #[trigger] trim_dots(s)[i] == s[i],
        trim_dots(s).len() > 0 ==> trim_dots(s).last() != '.',
    decreases s.len(),
{
    if s.len() > 0 && s.last() == '.' {
        lemma_trim_dots_prefix(s.drop_last());
    }
}

/// Normalizing a second time changes nothing, and a normalized hostname has no NUL,
/// no dot at its end and no upper-case ASCII letter.
pub proof fn law_normalize_idempotent(address: Seq<char>)
    ensures
        normalize(normalize(address)) == normalize(address),
        normalize(address).len() > 0 ==> normalize(address).last() != '.',
        forall|i: int|
            0 <= i < normalize(address).len() ==> {
                let c = #[trigger] normalize(address)[i];
                c != '\0' && !('A' <= c <= 'Z')
            },
{
    let name = normalize(address);
    lemma_before_nul_has_none(address);
    lemma_trim_dots_prefix(before_nul(address));
    let kept = trim_dots(before_nul(address));
    assert(forall|i: int| 0 <= i < name.len() ==> name[i] == lower_char(#[trigger] kept[i]));
    assert forall|i: int| 0 <= i < name.len() implies {
        let c = #[trigger] name[i];
        c != '\0' && !('A' <= c <= 'Z')
    } by {
        assert(kept[i] == before_nul(address)[i]);
        assert(name[i] == lower_char(kept[i]));
    }
    if name.len() > 0 {
        assert(name.last() == lower_char(kept.last()));
    }
    assert(lower(name) =~= name);
    law_typed_forms_agree(name, name, 0, Seq::empty());
    assert(name + Seq::new(0, |i: int| '.') + Seq::<char>::empty() =~= name);
}

/// When the parser decides what: an old ping and a packet length that is not from 1 to
/// 1024 are refused, a packet that has not come whole is waited for, and so is a length of
/// less than five bytes that goes on; a hostname is read from whole packets only.
pub proof fn law_decision_is_due(buf: Seq<u8>)
    requires
        buf.len() > 0,
    ensures
        buf[0] == 0xFE ==> handshake(buf) is Invalid,
        buf[0] != 0xFE ==> match varint(buf) {
            Some((len, n)) => {
                &&& !(1 <= len <= 1024) ==> handshake(buf) is Invalid
                &&& 1 <= len <= 1024 ==> (handshake(buf) is NeedMore <==> buf.len() < n + len)
            },
            None => if buf.len() < 5 {
                handshake(buf) is NeedMore
            } else {
                handshake(buf) is Invalid
            },
        },
        handshake(buf) is Hostname ==> handshake(buf)->Hostname_0.len() > 0,
{
}

/// What a whole packet of which the length was read says, whatever comes after it.
pub proof fn law_whole_packet_decides(buf: Seq<u8>, len: i32, n: nat)
    requires
        buf.len() > 0,
        buf[0] != 0xFE,
        varint(buf) == Some((len, n)),
        1 <= len <= 1024,
        n + len <= buf.len(),
    ensures
        handshake(buf) == packet_hostname(buf.subrange(n as int, n + len)),
{
}

/// A packet names a hostname exactly where its first number is zero, a second number and
/// the length of an address follow, from 0 to 255, and so many bytes of valid UTF-8 with
/// something left after normalizing; every other packet is refused.
pub proof fn law_packet_names_hostname(body: Seq<u8>)
    ensures
        ({
            let (id, a) = varint(body).unwrap();
            let (version, b) = varint(body.skip(a as int)).unwrap();
            let (len, c) = varint(body.skip((a + b) as int)).unwrap();
            let address = body.subrange((a + b + c) as int, a + b + c + len);
            if varint(body) is Some && id == 0 && varint(body.skip(a as int)) is Some && varint(
                body.skip((a + b) as int),
            ) is Some && 0 <= len <= 255 && a + b + c + len <= body.len() && valid_utf8(address)
                && normalize(decode_utf8(address)).len() > 0 {
                packet_hostname(body) == HandshakeView::Hostname(normalize(decode_utf8(address)))
            } else {
                packet_hostname(body) is Invalid
            }
        }),
{
}

} // verus!
