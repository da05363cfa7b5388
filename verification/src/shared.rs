//! Protocol definitions shared by the relay and the client, and the parser of the
//! Minecraft handshake.

use vstd::prelude::*;
use vstd::slice::slice_subrange;
use vstd::string::*;
use vstd::utf8::{decode_utf8, valid_utf8};

use crate::text::{lower, lower_char, string_from_chars, text_of, texts, to_lower_char};
use crate::varint::{lemma_varint_range, read_varint, varint, MAX_VARINT_LEN};

verus! {

/// TCP port used for control connections with the relay.
pub const CONTROL_PORT: u16 = 7835;

/// Default public Minecraft port. A player who types a name without a port connects
/// here, so the relay keeps a listener open on it.
pub const DEFAULT_MC_PORT: u16 = 25565;

/// Lowest public port a client is allowed to claim. Ports must be strictly above this.
pub const MIN_USER_PORT: u16 = 1000;

/// Maximum byte length of a JSON frame in the control stream.
pub const MAX_FRAME_LENGTH: usize = 8192;

/// Timeout, in seconds, for network connections and initial protocol messages.
pub const NETWORK_TIMEOUT_SECS: u64 = 3;

/// Time budget, in seconds, for reading the whole of a player's handshake.
pub const HANDSHAKE_TIMEOUT_SECS: u64 = 5;

/// Longest packet, in bytes, that is still taken for a handshake.
pub const MAX_HANDSHAKE_PACKET: i32 = 1024;

/// Longest server address, in bytes, that a handshake may carry.
pub const MAX_ADDRESS_LEN: i32 = 255;

/// The bytes of a UUID.
pub type Uuid = [u8; 16];

/// One route a client wants to expose: a public port and an optional sub-label.
#[derive(Debug)]
pub struct RouteSpec {
    /// Public port to expose (must be above [`MIN_USER_PORT`]).
    pub port: u16,
    /// Optional sub-label, e.g. `survival` in `survival.name.tunnel.birdflop.com`.
    pub label: Option<String>,
}

/// What a [`RouteSpec`] says.
pub struct RouteSpecView {
    /// Public port to expose.
    pub port: u16,
    /// Optional sub-label.
    pub label: Option<Seq<char>>,
}

impl View for RouteSpec {
    type V = RouteSpecView;

    open spec fn view(&self) -> RouteSpecView {
        RouteSpecView { port: self.port, label: text_of(self.label) }
    }
}

/// What a list of route specs says.
pub open spec fn specs_of(routes: Seq<RouteSpec>) -> Seq<RouteSpecView> {
    Seq::new(routes.len(), |i: int| routes[i]@)
}

/// A message from the client on the control connection.
#[derive(Debug)]
pub enum ClientMessage {
    /// Request a brand-new identity. The relay issues a subdomain and a token and
    /// treats this connection as authenticated for that subdomain.
    Register,
    /// Authenticate as an existing identity, named by its (public) subdomain.
    Authenticate(String),
    /// Answer to an authentication challenge.
    Answer(String),
    /// After authenticating, claim one or more routes to forward.
    Listen {
        /// The routes to register. Must be non-empty.
        routes: Vec<RouteSpec>,
    },
    /// Accepts an incoming TCP connection, using this stream as a proxy.
    Accept(Uuid),
}

/// What a [`ClientMessage`] says.
pub enum ClientMessageView {
    /// Asks for a new identity.
    Register,
    /// Names the identity to authenticate as.
    Authenticate(Seq<char>),
    /// Answers a challenge.
    Answer(Seq<char>),
    /// Asks for routes.
    Listen(Seq<RouteSpecView>),
    /// Takes a pending connection.
    Accept(Uuid),
}

impl View for ClientMessage {
    type V = ClientMessageView;

    open spec fn view(&self) -> ClientMessageView {
        match self {
            ClientMessage::Register => ClientMessageView::Register,
            ClientMessage::Authenticate(subdomain) => ClientMessageView::Authenticate(subdomain@),
            ClientMessage::Answer(tag) => ClientMessageView::Answer(tag@),
            ClientMessage::Listen { routes } => ClientMessageView::Listen(specs_of(routes@)),
            ClientMessage::Accept(id) => ClientMessageView::Accept(*id),
        }
    }
}

/// What was received, where anything was.
pub open spec fn client_said(message: Option<ClientMessage>) -> Option<ClientMessageView> {
    match message {
        Some(m) => Some(m@),
        None => None,
    }
}

/// A message from the relay on the control connection.
#[derive(Debug)]
pub enum ServerMessage {
    /// A newly issued identity, in response to [`ClientMessage::Register`].
    Issued {
        /// The assigned public subdomain.
        subdomain: String,
        /// The secret token used to re-authenticate later.
        token: String,
    },
    /// Authentication challenge, in response to [`ClientMessage::Authenticate`].
    Challenge(Uuid),
    /// Confirms a successful existing-identity authentication.
    Authenticated,
    /// Confirms a [`ClientMessage::Listen`].
    Bound {
        /// One public address per registered route, in request order.
        addresses: Vec<String>,
    },
    /// No-op used to test if the client is still reachable.
    Heartbeat,
    /// Asks the client to accept a forwarded TCP connection.
    Connection {
        /// Identifier the client echoes back in [`ClientMessage::Accept`].
        id: Uuid,
        /// The matched route's hostname.
        hostname: String,
        /// The public port the player connected on.
        port: u16,
    },
    /// Indicates a server error that terminates the connection.
    Error(String),
}

/// What a [`ServerMessage`] says.
pub enum ServerMessageView {
    /// Hands out an identity: subdomain and token.
    Issued(Seq<char>, Seq<char>),
    /// Asks for the HMAC of a challenge.
    Challenge(Uuid),
    /// Confirms an authentication.
    Authenticated,
    /// Confirms routes, with their addresses.
    Bound(Seq<Seq<char>>),
    /// Says nothing.
    Heartbeat,
    /// Tells of a player: connection, hostname and port.
    Connection(Uuid, Seq<char>, u16),
    /// Tells of an error.
    Error(Seq<char>),
}

impl View for ServerMessage {
    type V = ServerMessageView;

    open spec fn view(&self) -> ServerMessageView {
        match self {
            ServerMessage::Issued { subdomain, token } => ServerMessageView::Issued(
                subdomain@,
                token@,
            ),
            ServerMessage::Challenge(challenge) => ServerMessageView::Challenge(*challenge),
            ServerMessage::Authenticated => ServerMessageView::Authenticated,
            ServerMessage::Bound { addresses } => ServerMessageView::Bound(texts(addresses@)),
            ServerMessage::Heartbeat => ServerMessageView::Heartbeat,
            ServerMessage::Connection { id, hostname, port } => ServerMessageView::Connection(
                *id,
                hostname@,
                *port,
            ),
            ServerMessage::Error(message) => ServerMessageView::Error(message@),
        }
    }
}

/// What was received, where anything was.
pub open spec fn server_said(message: Option<ServerMessage>) -> Option<ServerMessageView> {
    match message {
        Some(m) => Some(m@),
        None => None,
    }
}

/// Whether a character may stand in a DNS label: a lower-case ASCII letter, a digit
/// or a hyphen.
pub open spec fn label_char(c: char) -> bool {
    'a' <= c <= 'z' || '0' <= c <= '9' || c == '-'
}

/// A single DNS label: 1 to 63 label characters, with no hyphen at either end.
pub open spec fn valid_label(label: Seq<char>) -> bool {
    &&& 1 <= label.len() <= 63
    &&& label[0] != '-'
    &&& label.last() != '-'
    &&& forall|i: int| 0 <= i < label.len() ==> label_char(#[trigger] label[i])
}

/// Whether a string is a valid single DNS label (sub-name) we'll accept.
pub fn is_valid_label(label: &str) -> (res: bool)
    ensures
        res == valid_label(label@),
{
    if !label.is_ascii() {
        proof {
            let i = choose|i: int|
                0 <= i < label@.len() && !('\0' <= #[trigger] label@[i] <= '\u{7f}');
            assert(!label_char(label@[i]));
        }
        return false;
    }
    let bytes: &[u8] = label.as_bytes();
    let len: usize = bytes.len();
    proof {
        vstd::utf8::is_ascii_chars_encode_utf8(label@);
    }
    if len == 0 || len > 63 {
        return false;
    }
    assert(bytes@[0] == label@[0] as u8);
    assert(bytes@[len - 1] == label@[len - 1] as u8);
    if bytes[0] == '-' as u8 || bytes[len - 1] == '-' as u8 {
        return false;
    }
    let mut i: usize = 0;
    while i < len
        invariant
            len == label@.len(),
            bytes@.len() == len,
            i <= len,
            forall|j: int| 0 <= j < len ==> '\0' <= #[trigger] label@[j] <= '\u{7f}',
            forall|j: int| 0 <= j < len ==> #[trigger] label@[j] as u8 == bytes@[j],
            forall|j: int| 0 <= j < i ==> label_char(#[trigger] label@[j]),
        decreases len - i,
    {
        let b: u8 = bytes[i];
        let letter: bool = 'a' as u8 <= b && b <= 'z' as u8;
        let number: bool = '0' as u8 <= b && b <= '9' as u8;
        assert(label@[i as int] as u8 == b);
        if !(letter || number || b == '-' as u8) {
            assert(!label_char(label@[i as int]));
            return false;
        }
        i = i + 1;
    }
    true
}

/// Outcome of trying to parse a Minecraft handshake from a partial buffer.
#[derive(Debug)]
pub enum HandshakeParse {
    /// Parsed successfully; carries the (normalized) server address the player typed.
    Hostname(String),
    /// Not enough bytes yet: read more and try again.
    NeedMore,
    /// Not a valid modern Minecraft handshake.
    Invalid,
}

/// What a [`HandshakeParse`] says, over characters.
pub enum HandshakeView {
    /// The normalized hostname.
    Hostname(Seq<char>),
    /// More bytes are needed.
    NeedMore,
    /// Not a handshake.
    Invalid,
}

impl View for HandshakeParse {
    type V = HandshakeView;

    open spec fn view(&self) -> HandshakeView {
        match self {
            HandshakeParse::Hostname(hostname) => HandshakeView::Hostname(hostname@),
            HandshakeParse::NeedMore => HandshakeView::NeedMore,
            HandshakeParse::Invalid => HandshakeView::Invalid,
        }
    }
}

/// The part of a text before its first NUL.
pub open spec fn before_nul(s: Seq<char>) -> Seq<char>
    decreases s.len(),
{
    if s.len() == 0 || s[0] == '\0' {
        Seq::empty()
    } else {
        seq![s[0]] + before_nul(s.drop_first())
    }
}

/// A text without the dots at its end.
pub open spec fn trim_dots(s: Seq<char>) -> Seq<char>
    decreases s.len(),
{
    if s.len() > 0 && s.last() == '.' {
        trim_dots(s.drop_last())
    } else {
        s
    }
}

/// The hostname meant by the address in a handshake: the part before the first NUL,
/// without dots at its end, in lower case.
pub open spec fn normalize(address: Seq<char>) -> Seq<char> {
    lower(trim_dots(before_nul(address)))
}

/// The bytes of the server address in the body of a handshake packet: a zero packet
/// id, any protocol version, then the length of the address and the address itself.
pub open spec fn packet_address(packet: Seq<u8>) -> Option<Seq<u8>> {
    match varint(packet) {
        Some((id, a)) => if id != 0 {
            None
        } else {
            match varint(packet.skip(a as int)) {
                Some((_, b)) => match varint(packet.skip((a + b) as int)) {
                    Some((len, c)) => {
                        let start = a + b + c;
                        if 0 <= len <= MAX_ADDRESS_LEN && start + len <= packet.len() {
                            Some(packet.subrange(start as int, start + len))
                        } else {
                            None
                        }
                    },
                    None => None,
                },
                None => None,
            }
        },
        None => None,
    }
}

/// What the body of the first packet says: the hostname, or that it is no handshake.
pub open spec fn packet_hostname(packet: Seq<u8>) -> HandshakeView {
    match packet_address(packet) {
        Some(bytes) => if valid_utf8(bytes) && normalize(decode_utf8(bytes)).len() > 0 {
            HandshakeView::Hostname(normalize(decode_utf8(bytes)))
        } else {
            HandshakeView::Invalid
        },
        None => HandshakeView::Invalid,
    }
}

/// What the bytes received so far say about the handshake. A first byte of 0xFE is
/// the ping of a client before 1.7, and a packet length of more than five bytes is
/// malformed.
pub open spec fn handshake(buf: Seq<u8>) -> HandshakeView {
    if buf.len() > 0 && buf[0] == 0xFE {
        HandshakeView::Invalid
    } else {
        match varint(buf) {
            Some((len, n)) => if len <= 0 || len > MAX_HANDSHAKE_PACKET {
                HandshakeView::Invalid
            } else if buf.len() - n < len {
                HandshakeView::NeedMore
            } else {
                packet_hostname(buf.subrange(n as int, n + len))
            },
            None => if buf.len() >= MAX_VARINT_LEN {
                HandshakeView::Invalid
            } else {
                HandshakeView::NeedMore
            },
        }
    }
}

/// Normalizes the address of a handshake.
pub fn normalize_address(address: &str) -> (res: String)
    ensures
        res@ == normalize(address@),
{
    let mut chars: Vec<char> = Vec::new();
    let mut ended: bool = false;
    assert(address@.skip(0) =~= address@);
    assert(chars@ + before_nul(address@) =~= before_nul(address@));
    for c in it: address.chars()
        invariant
            it.seq() == address@,
            !ended ==> before_nul(address@) == chars@ + before_nul(
                address@.skip(it.index() as int),
            ),
            ended ==> before_nul(address@) == chars@,
    {
        if !ended {
            let ghost rest = address@.skip(it.index() as int);
            assert(rest[0] == c);
            assert(rest.drop_first() =~= address@.skip(it.index() + 1));
            if c == '\0' {
                ended = true;
                assert(before_nul(rest) =~= Seq::<char>::empty());
            } else {
                chars.push(c);
            }
        }
    }
    assert(chars@ =~= before_nul(address@));
    while chars.len() > 0 && chars[chars.len() - 1] == '.'
        invariant
            trim_dots(chars@) == trim_dots(before_nul(address@)),
        decreases chars.len(),
    {
        assert(chars@.last() == '.');
        chars.pop();
    }
    let mut i: usize = 0;
    let ghost trimmed = chars@;
    while i < chars.len()
        invariant
            chars@.len() == trimmed.len(),
            i <= chars@.len(),
            forall|j: int| 0 <= j < i ==> #[trigger] chars@[j] == lower_char(trimmed[j]),
            forall|j: int| i <= j < chars@.len() ==> #[trigger] chars@[j] == trimmed[j],
        decreases chars@.len() - i,
    {
        let c: char = chars[i];
        chars.set(i, to_lower_char(c));
        i = i + 1;
    }
    assert(chars@ =~= lower(trimmed));
    string_from_chars(chars.as_slice())
}

/// Tries to extract the server address from the first packet of a Minecraft
/// connection.
///
/// The layout is: VarInt packet length, then a body of
/// `[VarInt id=0][VarInt protocol][String address][u16 port][VarInt next-state]`.
/// FML/Forge and proxy-forwarding clients append extra data after a NUL byte, so only
/// the part before the first NUL is kept, without dots at its end and in lower case.
pub fn parse_handshake_hostname(buf: &[u8]) -> (res: HandshakeParse)
    ensures
        res@ == handshake(buf@),
{
    if buf.len() > 0 && buf[0] == 0xFE {
        return HandshakeParse::Invalid;
    }
    let mut pos: usize = 0;
    assert(buf@.skip(0) =~= buf@);
    let packet_len: usize = match read_varint(buf, &mut pos) {
        Some(v) => {
            if v <= 0 || v > MAX_HANDSHAKE_PACKET {
                return HandshakeParse::Invalid;
            }
            v as usize
        },
        None => {
            if buf.len() >= MAX_VARINT_LEN {
                return HandshakeParse::Invalid;
            }
            return HandshakeParse::NeedMore;
        },
    };
    proof {
        lemma_varint_range(buf@);
    }
    if buf.len() - pos < packet_len {
        return HandshakeParse::NeedMore;
    }
    let packet: &[u8] = slice_subrange(buf, pos, pos + packet_len);
    parse_packet(packet)
}

/// Extracts the hostname from the body of the first packet.
pub fn parse_packet(packet: &[u8]) -> (res: HandshakeParse)
    ensures
        res@ == packet_hostname(packet@),
{
    let mut p: usize = 0;
    assert(packet@.skip(0) =~= packet@);
    proof {
        lemma_varint_range(packet@);
    }
    match read_varint(packet, &mut p) {
        Some(id) => {
            if id != 0 {
                return HandshakeParse::Invalid;
            }
        },
        None => {
            return HandshakeParse::Invalid;
        },
    }
    proof {
        lemma_varint_range(packet@.skip(p as int));
    }
    if read_varint(packet, &mut p).is_none() {
        return HandshakeParse::Invalid;
    }
    proof {
        lemma_varint_range(packet@.skip(p as int));
    }
    let addr_len: usize = match read_varint(packet, &mut p) {
        Some(v) => {
            if v < 0 || v > MAX_ADDRESS_LEN {
                return HandshakeParse::Invalid;
            }
            v as usize
        },
        None => {
            return HandshakeParse::Invalid;
        },
    };
    if addr_len > packet.len() - p {
        return HandshakeParse::Invalid;
    }
    let addr: &[u8] = slice_subrange(packet, p, p + addr_len);
    match core::str::from_utf8(addr) {
        Ok(address) => {
            proof {
                vstd::utf8::encode_utf8_decode_utf8(address@);
            }
            let hostname: String = normalize_address(address);
            if hostname.as_str().is_empty() {
                HandshakeParse::Invalid
            } else {
                HandshakeParse::Hostname(hostname)
            }
        },
        Err(_) => HandshakeParse::Invalid,
    }
}

/// The labels that are accepted, letter by letter: 1 to 63 characters, each a lower-case
/// ASCII letter, a digit or a hyphen, with no hyphen in front or at the end.
pub proof fn law_labels_are_spelled(label: Seq<char>)
    ensures
        valid_label(label) <==> {
            &&& 1 <= label.len() <= 63
            &&& label[0] != '-'
            &&& label[label.len() - 1] != '-'
            &&& forall|i: int|
                0 <= i < label.len() ==> "abcdefghijklmnopqrstuvwxyz0123456789-"@.contains(
                    #[trigger] label[i],
                )
        },
{
    assert forall|c: char|
        label_char(c) <==> #[trigger] "abcdefghijklmnopqrstuvwxyz0123456789-"@.contains(c) by {
        lemma_label_char(c);
    }
}

proof fn lemma_label_char(c: char)
    ensures
        label_char(c) <==> "abcdefghijklmnopqrstuvwxyz0123456789-"@.contains(c),
{
    let all = "abcdefghijklmnopqrstuvwxyz0123456789-"@;
    reveal_strlit("abcdefghijklmnopqrstuvwxyz0123456789-");
    assert(all.len() == 37);
    assert forall|i: int| 0 <= i < 37 implies label_char(#[trigger] all[i]) by {}
    if 'a' <= c <= 'z' {
        assert(all[c as int - 'a' as int] == c);
    } else if '0' <= c <= '9' {
        assert(all[26 + c as int - '0' as int] == c);
    } else if c == '-' {
        assert(all[36] == c);
    }
}

proof fn lemma_before_nul_is_prefix(s: Seq<char>)
    ensures
        before_nul(s).len() <= s.len(),
        forall|i: int|
            0 <= i < before_nul(s).len() ==> #[trigger] before_nul(s)[i] == s[i] && s[i] != '\0',
        before_nul(s).len() < s.len() ==> s[before_nul(s).len() as int] == '\0',
    decreases s.len(),
{
    if s.len() > 0 && s[0] != '\0' {
        let rest = before_nul(s.drop_first());
        lemma_before_nul_is_prefix(s.drop_first());
        assert forall|i: int| 0 <= i < before_nul(s).len() implies #[trigger] before_nul(s)[i]
            == s[i] && s[i] != '\0' by {
            if i > 0 {
                assert(before_nul(s)[i] == rest[i - 1]);
                assert(s.drop_first()[i - 1] == s[i]);
            }
        }
    }
}

proof fn lemma_trim_dots_takes_dots(s: Seq<char>)
    ensures
        trim_dots(s).len() <= s.len(),
        trim_dots(s) == s.take(trim_dots(s).len() as int),
        forall|i: int| trim_dots(s).len() <= i < s.len() ==> #[trigger] s[i] == '.',
        trim_dots(s).len() > 0 ==> s[trim_dots(s).len() - 1] != '.',
    decreases s.len(),
{
    if s.len() > 0 && s.last() == '.' {
        lemma_trim_dots_takes_dots(s.drop_last());
        let n = trim_dots(s).len() as int;
        assert(s.drop_last().take(n) =~= s.take(n));
        assert forall|i: int| n <= i < s.len() implies #[trigger] s[i] == '.' by {
            if i < s.len() - 1 {
                assert(s.drop_last()[i] == s[i]);
            }
        }
    } else {
        assert(s.take(s.len() as int) =~= s);
    }
}

/// Whether a typed character is read as another: `A` to `Z` as `a` to `z` in turn, every
/// other character as itself.
pub open spec fn same_letter(typed: char, read: char) -> bool {
    if 'A' <= typed <= 'Z' {
        'a' <= read <= 'z' && read as int - 'a' as int == typed as int - 'A' as int
    } else {
        read == typed
    }
}

/// Whether a typed text starts with characters other than NUL that are read as a name.
pub open spec fn starts_as(typed: Seq<char>, name: Seq<char>) -> bool {
    &&& name.len() <= typed.len()
    &&& forall|i: int| 0 <= i < name.len() ==> #[trigger] typed[i] != '\0'
    &&& forall|i: int| 0 <= i < name.len() ==> same_letter(typed[i], #[trigger] name[i])
}

/// Whether nothing but dots lies between two places, of which the second is at a NUL or at
/// the end.
pub open spec fn only_dots(s: Seq<char>, from: int, end: int) -> bool {
    &&& from <= end <= s.len()
    &&& end < s.len() ==> s[end] == '\0'
    &&& forall|i: int| from <= i < end ==> #[trigger] s[i] == '.'
}

/// The hostname meant by an address is the address up to some place, in lower case: no
/// NUL comes before that place, nothing but dots lies between it and the first NUL or the
/// end, and no dot stands right before it. Lower case changes `A` to `Z` into `a` to `z`
/// and no other character.
pub proof fn law_hostname_is_what_was_typed(address: Seq<char>)
    ensures
        starts_as(address, normalize(address)),
        normalize(address).len() > 0 ==> address[normalize(address).len() - 1] != '.',
        exists|end: int| #[trigger] only_dots(address, normalize(address).len() as int, end),
{
    let kept = before_nul(address);
    let end = kept.len() as int;
    lemma_before_nul_is_prefix(address);
    lemma_trim_dots_takes_dots(kept);
    let name = normalize(address);
    let trimmed = trim_dots(kept);
    assert forall|i: int| 0 <= i < name.len() implies #[trigger] address[i] != '\0' by {
        assert(kept[i] == address[i]);
    }
    assert forall|i: int| 0 <= i < name.len() implies same_letter(
        address[i],
        #[trigger] name[i],
    ) by {
        assert(kept[i] == address[i]);
        assert(trimmed[i] == kept[i]);
        assert(name[i] == lower_char(trimmed[i]));
    }
    if name.len() > 0 {
        assert(kept[name.len() - 1] == address[name.len() - 1]);
    }
    assert forall|i: int| name.len() <= i < end implies #[trigger] address[i] == '.' by {
        assert(kept[i] == address[i]);
    }
    assert(only_dots(address, name.len() as int, end));
}

/// Nothing of a message of a client is lost or changed in what it says.
pub proof fn law_client_message_says_what_it_holds(message: ClientMessage, i: int)
    ensures
        message is Register <==> message@ is Register,
        message matches ClientMessage::Authenticate(subdomain) ==> message@
            == ClientMessageView::Authenticate(subdomain@),
        message matches ClientMessage::Answer(tag) ==> message@ == ClientMessageView::Answer(tag@),
        message matches ClientMessage::Accept(id) ==> message@ == ClientMessageView::Accept(id),
        message matches ClientMessage::Listen { routes } ==> {
            &&& message@ is Listen
            &&& message@->Listen_0.len() == routes@.len()
            &&& 0 <= i < routes@.len() ==> {
                &&& message@->Listen_0[i].port == routes@[i].port
                &&& match routes@[i].label {
                    Some(label) => message@->Listen_0[i].label == Some(label@),
                    None => message@->Listen_0[i].label is None,
                }
            }
        },
        client_said(Some(message)) == Some(message@),
        client_said(None) is None,
{
}

/// Nothing of a message of the relay is lost or changed in what it says.
pub proof fn law_server_message_says_what_it_holds(message: ServerMessage, i: int)
    ensures
        message matches ServerMessage::Issued { subdomain, token } ==> message@
            == ServerMessageView::Issued(subdomain@, token@),
        message matches ServerMessage::Challenge(challenge) ==> message@
            == ServerMessageView::Challenge(challenge),
        message is Authenticated <==> message@ is Authenticated,
        message matches ServerMessage::Bound { addresses } ==> {
            &&& message@ is Bound
            &&& message@->Bound_0.len() == addresses@.len()
            &&& 0 <= i < addresses@.len() ==> message@->Bound_0[i] == addresses@[i]@
        },
        message is Heartbeat <==> message@ is Heartbeat,
        message matches ServerMessage::Connection { id, hostname, port } ==> message@
            == ServerMessageView::Connection(id, hostname@, port),
        message matches ServerMessage::Error(text) ==> message@ == ServerMessageView::Error(text@),
        server_said(Some(message)) == Some(message@),
        server_said(None) is None,
{
}

} // verus!
