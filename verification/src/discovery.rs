//! LAN discovery: hex codec, datagram framing, envelope checks, message
//! classification and the table of peers seen on the network.

use vstd::prelude::*;

use crate::bytes::{append_bytes, copy_range, starts_with_bytes};
use crate::config::AppConfig;
use crate::error::{AppError, AppResult};
use crate::model::{peer_views, DiscoveredPeer, PeerView};
use crate::security::{
    certificate_fingerprint, ecdsa_key_parses, ed25519_signed, fingerprint_spec, parse_scheme_spec, scheme_name,
    sign_detached_message,
    signature_verdict, verify_detached_message_signature, DeviceIdentity, MessageSignatureScheme,
};
use crate::sorting::{lemma_multiset_map, sort_vec, sorted_by, TotalPreorder};
use crate::text::{
    chars_of, extend_chars, lemma_seq_lt_irreflexive, lemma_seq_lt_total, lemma_seq_lt_trans,
    seq_le, seq_lt, str_eq, string_of, LexOrder,
};

verus! {

broadcast use vstd::seq_lib::group_filter_ensures;

/// Lower-case hex digit of a value below sixteen.
pub open spec fn hex_digit(n: int) -> char {
    if n < 10 {
        (('0' as int) + n) as char
    } else {
        (('a' as int) + n - 10) as char
    }
}

/// Lower-case hex rendering of bytes, two digits per byte.
pub open spec fn hex_spec(b: Seq<u8>) -> Seq<char> {
    Seq::new(
        2 * b.len(),
        |i: int|
            if i % 2 == 0 {
                hex_digit((b[i / 2] / 16) as int)
            } else {
                hex_digit((b[i / 2] % 16) as int)
            },
    )
}

/// Value of a hex digit in either case.
pub open spec fn nibble_spec(c: u32) -> Option<u8> {
    if 0x30 <= c <= 0x39 {
        Some((c - 0x30) as u8)
    } else if 0x61 <= c <= 0x66 {
        Some((c - 0x61 + 10) as u8)
    } else if 0x41 <= c <= 0x46 {
        Some((c - 0x41 + 10) as u8)
    } else {
        None
    }
}

/// Whether every character is a hex digit.
pub open spec fn all_hex(s: Seq<char>) -> bool {
    forall|i: int| 0 <= i < s.len() ==> nibble_spec(#[trigger] s[i] as u32) is Some
}

/// Bytes denoted by hex text: defined when the text is an even number of hex
/// digits.
pub open spec fn decode_hex_spec(s: Seq<char>) -> Option<Seq<u8>> {
    if s.len() % 2 == 0 && all_hex(s) {
        Some(
            Seq::new(
                s.len() / 2,
                |k: int|
                    (nibble_spec(s[2 * k] as u32)->0 * 16 + nibble_spec(s[2 * k + 1] as u32)->0) as u8,
            ),
        )
    } else {
        None
    }
}

fn hex_digit_exec(n: u8) -> (c: char)
    requires
        n < 16,
    ensures
        c == hex_digit(n as int),
{
    if n < 10 {
        ((48u8 + n) as char)
    } else {
        ((97u8 + n - 10) as char)
    }
}

/// Lower-case hex rendering of bytes.
pub fn encode_hex(bytes: &[u8]) -> (r: String)
    ensures
        r@ == hex_spec(bytes@),
{
    let mut out: Vec<char> = Vec::new();
    let mut i: usize = 0;
    while i < bytes.len()
        invariant
            i <= bytes@.len(),
            out@.len() == 2 * i,
            forall|k: int| 0 <= k < 2 * i ==> out@[k] == hex_spec(bytes@)[k],
        decreases bytes@.len() - i,
    {
        let b = bytes[i];
        out.push(hex_digit_exec(b / 16));
        out.push(hex_digit_exec(b % 16));
        proof {
            assert forall|k: int| 0 <= k < 2 * (i + 1) implies out@[k] == hex_spec(bytes@)[k] by {
                if k >= 2 * i {
                    assert((2 * i) / 2 == i as int);
                    assert((2 * i + 1) / 2 == i as int);
                    assert((2 * i) % 2 == 0);
                    assert((2 * i + 1) % 2 == 1);
                }
            }
        }
        i = i + 1;
    }
    proof {
        assert(out@ =~= hex_spec(bytes@));
    }
    crate::text::string_of(out.as_slice())
}

/// Value of one hex digit byte.
pub fn decode_hex_nibble(byte: u8) -> (r: Option<u8>)
    ensures
        r == nibble_spec(byte as u32),
{
    if 48 <= byte && byte <= 57 {
        Some(byte - 48)
    } else if 97 <= byte && byte <= 102 {
        Some(byte - 97 + 10)
    } else if 65 <= byte && byte <= 70 {
        Some(byte - 65 + 10)
    } else {
        None
    }
}

fn nibble_of_char(c: char) -> (r: Option<u8>)
    ensures
        r == nibble_spec(c as u32),
{
    let u = c as u32;
    if u < 256 {
        decode_hex_nibble(u as u8)
    } else {
        None
    }
}

/// Bytes denoted by hex text; `None` unless it is an even number of hex digits.
pub fn decode_hex(text: &str) -> (r: Option<Vec<u8>>)
    ensures
        match r {
            Some(v) => decode_hex_spec(text@) == Some(v@),
            None => decode_hex_spec(text@) is None,
        },
{
    let chars = crate::text::chars_of(text);
    let n = chars.len();
    if n % 2 != 0 {
        return None;
    }
    let mut out: Vec<u8> = Vec::new();
    let mut k: usize = 0;
    while k < n / 2
        invariant
            n == chars@.len() == text@.len(),
            chars@ == text@,
            n % 2 == 0,
            k <= n / 2,
            out@.len() == k,
            forall|j: int| 0 <= j < 2 * k ==> nibble_spec(#[trigger] chars@[j] as u32) is Some,
            forall|j: int|
                0 <= j < k ==> out@[j] == (nibble_spec(chars@[2 * j] as u32)->0 * 16 + nibble_spec(
                    chars@[2 * j + 1] as u32,
                )->0) as u8,
        decreases n / 2 - k,
    {
        let hi = nibble_of_char(chars[2 * k]);
        let lo = nibble_of_char(chars[2 * k + 1]);
        match (hi, lo) {
            (Some(h), Some(l)) => {
                out.push(h * 16 + l);
            },
            _ => {
                proof {
                    assert(chars@[2 * k as int] == text@[2 * k as int]);
                    assert(chars@[2 * k + 1] == text@[2 * k + 1]);
                    if hi is None {
                        assert(nibble_spec(text@[2 * k as int] as u32) is None);
                    } else {
                        assert(nibble_spec(text@[2 * k + 1] as u32) is None);
                    }
                    assert(!all_hex(text@));
                }
                return None;
            },
        }
        k = k + 1;
    }
    proof {
        assert(all_hex(text@));
        let d = decode_hex_spec(text@)->0;
        assert(out@ =~= d);
    }
    Some(out)
}

/// Hex decoding undoes hex encoding.
pub proof fn lemma_hex_roundtrip(b: Seq<u8>)
    ensures
        decode_hex_spec(hex_spec(b)) == Some(b),
{
    let h = hex_spec(b);
    assert forall|i: int| 0 <= i < h.len() implies nibble_spec(#[trigger] h[i] as u32) is Some by {
        if i % 2 == 0 {
            assert(b[i / 2] / 16 < 16);
        } else {
            assert(b[i / 2] % 16 < 16);
        }
    }
    assert(h.len() % 2 == 0);
    let d = decode_hex_spec(h)->0;
    assert forall|k: int| 0 <= k < b.len() implies d[k] == b[k] by {
        assert((2 * k) / 2 == k);
        assert((2 * k + 1) / 2 == k);
        assert((2 * k) % 2 == 0);
        assert((2 * k + 1) % 2 == 1);
        let x = b[k];
        assert(x / 16 * 16 + x % 16 == x);
    }
    assert(d =~= b);
}


/// Marker that starts every discovery datagram: `CLKD`.
pub open spec fn discovery_magic() -> Seq<u8> {
    seq![0x43u8, 0x4cu8, 0x4bu8, 0x44u8]
}

fn discovery_magic_vec() -> (r: Vec<u8>)
    ensures
        r@ == discovery_magic(),
{
    let mut v: Vec<u8> = Vec::new();
    v.push(0x43u8);
    v.push(0x4cu8);
    v.push(0x4bu8);
    v.push(0x44u8);
    proof {
        assert(v@ =~= discovery_magic());
    }
    v
}

/// The identity this device announces on the network.
#[derive(Debug)]
pub struct DiscoveryConfig {
    pub device_id: String,
    pub device_name: String,
    pub listen_port: u16,
    pub fingerprint: String,
    pub certificate_der: Vec<u8>,
    pub private_key_der: Vec<u8>,
}

/// The announced identity of a device: settings and transport identity.
pub fn build_discovery_config(config: &AppConfig, identity: &DeviceIdentity) -> (r: DiscoveryConfig)
    ensures
        r.device_id == config.device_id,
        r.device_name == config.device_name,
        r.listen_port == config.listen_port,
        r.fingerprint == identity.fingerprint,
        r.certificate_der@ == identity.certificate_der@,
        r.private_key_der@ == identity.private_key_der@,
{
    let id = identity.clone();
    DiscoveryConfig {
        device_id: config.device_id.clone(),
        device_name: config.device_name.clone(),
        listen_port: config.listen_port,
        fingerprint: identity.fingerprint.clone(),
        certificate_der: id.certificate_der,
        private_key_der: id.private_key_der,
    }
}

/// A socket address: an IP address in text form and a port.
#[derive(Debug, PartialEq, Eq)]
pub struct SocketAddress {
    pub ip: String,
    pub port: u16,
}

impl Clone for SocketAddress {
    fn clone(&self) -> (r: Self)
        ensures
            r == *self,
    {
        SocketAddress { ip: self.ip.clone(), port: self.port }
    }
}

/// UDP port shared by all peers for discovery.
pub const DISCOVERY_PORT: u16 = 27842;

/// Where a discovery datagram goes.
pub enum DiscoveryTarget {
    /// Every device on the local network.
    Lan,
    Unicast(SocketAddress),
}

/// The addresses a datagram is sent to: on the LAN the multicast group (when
/// the socket joined it) and the broadcast address; otherwise the target.
pub fn datagram_destinations(target: &DiscoveryTarget, multicast_enabled: bool) -> (r: Vec<SocketAddress>)
    ensures
        match target {
            DiscoveryTarget::Lan => {
                &&& r@.len() == if multicast_enabled { 2int } else { 1int }
                &&& multicast_enabled ==> r@[0].ip@ == "239.255.61.53"@ && r@[0].port == DISCOVERY_PORT
                &&& r@.last().ip@ == "255.255.255.255"@ && r@.last().port == DISCOVERY_PORT
            },
            DiscoveryTarget::Unicast(a) => r@ == seq![*a],
        },
{
    let mut out: Vec<SocketAddress> = Vec::new();
    match target {
        DiscoveryTarget::Lan => {
            if multicast_enabled {
                out.push(SocketAddress { ip: "239.255.61.53".to_string(), port: DISCOVERY_PORT });
            }
            out.push(SocketAddress { ip: "255.255.255.255".to_string(), port: DISCOVERY_PORT });
        },
        DiscoveryTarget::Unicast(a) => {
            out.push(a.clone());
            proof {
                assert(out@ =~= seq![*a]);
            }
        },
    }
    out
}

/// The payload of a discovery datagram.
#[derive(Debug, PartialEq, Eq)]
pub enum DiscoveryMessage {
    Probe { device_id: String, fingerprint: String },
    Announce { device_id: String, device_name: String, listen_port: u16, fingerprint: String },
    TrustRequest {
        request_id: u128,
        device_id: String,
        device_name: String,
        listen_port: u16,
        fingerprint: String,
    },
    TrustDecision {
        request_id: u128,
        accepted: bool,
        device_id: String,
        device_name: String,
        listen_port: u16,
        fingerprint: String,
    },
}

impl DiscoveryMessage {
    /// The fingerprint the sender claims.
    pub open spec fn fingerprint_of(&self) -> Seq<char> {
        match self {
            DiscoveryMessage::Probe { fingerprint, .. } => fingerprint@,
            DiscoveryMessage::Announce { fingerprint, .. } => fingerprint@,
            DiscoveryMessage::TrustRequest { fingerprint, .. } => fingerprint@,
            DiscoveryMessage::TrustDecision { fingerprint, .. } => fingerprint@,
        }
    }

    /// The device id the sender claims.
    pub open spec fn device_id_of(&self) -> Seq<char> {
        match self {
            DiscoveryMessage::Probe { device_id, .. } => device_id@,
            DiscoveryMessage::Announce { device_id, .. } => device_id@,
            DiscoveryMessage::TrustRequest { device_id, .. } => device_id@,
            DiscoveryMessage::TrustDecision { device_id, .. } => device_id@,
        }
    }

    /// A probe asking peers to announce themselves.
    pub fn probe(config: &DiscoveryConfig) -> (r: Self)
        ensures
            r matches DiscoveryMessage::Probe { device_id, fingerprint } && device_id == config.device_id
                && fingerprint == config.fingerprint,
    {
        DiscoveryMessage::Probe { device_id: config.device_id.clone(), fingerprint: config.fingerprint.clone() }
    }

    /// An announcement of this device.
    pub fn announce(config: &DiscoveryConfig) -> (r: Self)
        ensures
            r matches DiscoveryMessage::Announce { device_id, device_name, listen_port, fingerprint }
                && device_id == config.device_id && device_name == config.device_name && listen_port
                == config.listen_port && fingerprint == config.fingerprint,
    {
        DiscoveryMessage::Announce {
            device_id: config.device_id.clone(),
            device_name: config.device_name.clone(),
            listen_port: config.listen_port,
            fingerprint: config.fingerprint.clone(),
        }
    }

    /// A request to be trusted by a peer.
    pub fn trust_request(config: &DiscoveryConfig, request_id: u128) -> (r: Self)
        ensures
            r matches DiscoveryMessage::TrustRequest { request_id: rid, device_id, device_name, listen_port, fingerprint }
                && rid == request_id && device_id == config.device_id && device_name == config.device_name
                && listen_port == config.listen_port && fingerprint == config.fingerprint,
    {
        DiscoveryMessage::TrustRequest {
            request_id,
            device_id: config.device_id.clone(),
            device_name: config.device_name.clone(),
            listen_port: config.listen_port,
            fingerprint: config.fingerprint.clone(),
        }
    }

    /// The answer to a peer's trust request.
    pub fn trust_decision(config: &DiscoveryConfig, request_id: u128, accepted: bool) -> (r: Self)
        ensures
            r matches DiscoveryMessage::TrustDecision { request_id: rid, accepted: acc, device_id, device_name, listen_port, fingerprint }
                && rid == request_id && acc == accepted && device_id == config.device_id && device_name
                == config.device_name && listen_port == config.listen_port && fingerprint == config.fingerprint,
    {
        DiscoveryMessage::TrustDecision {
            request_id,
            accepted,
            device_id: config.device_id.clone(),
            device_name: config.device_name.clone(),
            listen_port: config.listen_port,
            fingerprint: config.fingerprint.clone(),
        }
    }
}

/// The fingerprint a message claims.
pub fn message_fingerprint(message: &DiscoveryMessage) -> (r: &str)
    ensures
        r@ == message.fingerprint_of(),
{
    match message {
        DiscoveryMessage::Probe { fingerprint, .. } => fingerprint.as_str(),
        DiscoveryMessage::Announce { fingerprint, .. } => fingerprint.as_str(),
        DiscoveryMessage::TrustRequest { fingerprint, .. } => fingerprint.as_str(),
        DiscoveryMessage::TrustDecision { fingerprint, .. } => fingerprint.as_str(),
    }
}

fn message_device_id(message: &DiscoveryMessage) -> (r: &str)
    ensures
        r@ == message.device_id_of(),
{
    match message {
        DiscoveryMessage::Probe { device_id, .. } => device_id.as_str(),
        DiscoveryMessage::Announce { device_id, .. } => device_id.as_str(),
        DiscoveryMessage::TrustRequest { device_id, .. } => device_id.as_str(),
        DiscoveryMessage::TrustDecision { device_id, .. } => device_id.as_str(),
    }
}

/// The signature fields of a discovery envelope.
#[derive(Debug)]
pub struct EnvelopeSignature {
    pub certificate_der_hex: String,
    pub signature_scheme: String,
    pub signature_hex: String,
}

/// Signs the serialized unsigned envelope with the device key and renders
/// the certificate and signature in hex.
pub fn sign_discovery_message(config: &DiscoveryConfig, unsigned_json: &[u8]) -> (r: AppResult<EnvelopeSignature>)
    ensures
        r matches Ok(sig) ==> sig.certificate_der_hex@ == hex_spec(config.certificate_der@),
        ed25519_signed(config.private_key_der@, unsigned_json@) matches Some(s) ==> (r matches Ok(sig)
            && sig.signature_scheme@ == scheme_name(MessageSignatureScheme::Ed25519) && sig.signature_hex@
            == hex_spec(s)),
        ed25519_signed(config.private_key_der@, unsigned_json@) is None ==> match r {
            Ok(sig) => (sig.signature_scheme@ == scheme_name(MessageSignatureScheme::EcdsaP256Sha256Asn1)
                && ecdsa_key_parses(false, config.private_key_der@)) || (sig.signature_scheme@ == scheme_name(
                MessageSignatureScheme::EcdsaP384Sha384Asn1,
            ) && ecdsa_key_parses(true, config.private_key_der@)),
            Err(e) => e.is_crypto("Failed to sign detached message."@) || e.is_crypto(
                "Unsupported device identity key algorithm for detached message signing."@,
            ),
        },
        ed25519_signed(config.private_key_der@, unsigned_json@) is None && !ecdsa_key_parses(
            false,
            config.private_key_der@,
        ) && !ecdsa_key_parses(true, config.private_key_der@) ==> (r matches Err(e) && e.is_crypto(
            "Unsupported device identity key algorithm for detached message signing."@,
        )),
{
    let identity = DeviceIdentity {
        certificate_der: copy_range(config.certificate_der.as_slice(), 0, config.certificate_der.len()),
        private_key_der: copy_range(config.private_key_der.as_slice(), 0, config.private_key_der.len()),
        fingerprint: config.fingerprint.clone(),
    };
    proof {
        assert(identity.certificate_der@ =~= config.certificate_der@);
        assert(identity.private_key_der@ =~= config.private_key_der@);
    }
    let signature = match sign_detached_message(&identity, unsigned_json) {
        Ok(signature) => signature,
        Err(e) => return Err(e),
    };
    Ok(EnvelopeSignature {
        certificate_der_hex: encode_hex(signature.certificate_der.as_slice()),
        signature_scheme: signature.scheme.as_str().to_string(),
        signature_hex: encode_hex(signature.signature.as_slice()),
    })
}

/// Frames a serialized envelope as a datagram: the marker, then the JSON;
/// refused when the datagram would exceed the discovery packet limit.
pub fn frame_discovery_payload(json: &[u8]) -> (r: AppResult<Vec<u8>>)
    ensures
        match r {
            Ok(p) => 4 + json@.len() <= crate::constants::MAX_DISCOVERY_PACKET_BYTES && p@
                == discovery_magic() + json@,
            Err(e) => 4 + json@.len() > crate::constants::MAX_DISCOVERY_PACKET_BYTES && e is Network,
        },
{
    if json.len() > crate::constants::MAX_DISCOVERY_PACKET_BYTES - 4 {
        let mut msg = chars_of("Discovery datagram size ");
        let n = crate::text::decimal_chars_wide(json.len() as u128 + 4);
        extend_chars(&mut msg, n.as_slice());
        crate::text::extend_str(&mut msg, " exceeds the supported limit.");
        return Err(AppError::Network(string_of(msg.as_slice())));
    }
    let mut payload = discovery_magic_vec();
    append_bytes(&mut payload, json);
    Ok(payload)
}

/// The JSON part of a datagram that carries the marker and fits the limit.
pub open spec fn frame_body_spec(bytes: Seq<u8>) -> Option<Seq<u8>> {
    if bytes.len() <= 4 || bytes.take(4) != discovery_magic() || bytes.len()
        > crate::constants::MAX_DISCOVERY_PACKET_BYTES {
        None
    } else {
        Some(bytes.skip(4))
    }
}

/// A framed datagram reads back as the JSON it was framed from: for every
/// non-empty body that fits the packet limit, taking the body of the
/// marker followed by it gives it back.
pub proof fn lemma_discovery_frame_roundtrip(json: Seq<u8>)
    requires
        json.len() > 0,
        4 + json.len() <= crate::constants::MAX_DISCOVERY_PACKET_BYTES,
    ensures
        frame_body_spec(discovery_magic() + json) == Some(json),
{
    let framed = discovery_magic() + json;
    assert(framed.take(4) =~= discovery_magic());
    assert(framed.skip(4) =~= json);
}

/// The JSON part of a discovery datagram, or `None` for foreign datagrams.
pub fn discovery_frame_body(bytes: &[u8]) -> (r: Option<Vec<u8>>)
    ensures
        match r {
            Some(b) => frame_body_spec(bytes@) == Some(b@),
            None => frame_body_spec(bytes@) is None,
        },
{
    let magic = discovery_magic_vec();
    if bytes.len() <= 4 || !starts_with_bytes(bytes, magic.as_slice()) || bytes.len()
        > crate::constants::MAX_DISCOVERY_PACKET_BYTES {
        return None;
    }
    let body = copy_range(bytes, 4, bytes.len());
    proof {
        assert(body@ =~= bytes@.skip(4));
    }
    Some(body)
}

/// A received envelope: protocol version, message and signature fields.
#[derive(Debug)]
pub struct DiscoveryEnvelope {
    pub protocol_version: u8,
    pub message: DiscoveryMessage,
    pub certificate_der_hex: String,
    pub signature_scheme: String,
    pub signature_hex: String,
}

/// Whether an envelope is to be believed, given the serialization of its
/// unsigned part: current protocol version, hex fields that decode, a known
/// scheme, a signature that verifies under the certificate, and a claimed
/// fingerprint equal to the certificate's.
pub open spec fn envelope_accepted(env: DiscoveryEnvelope, unsigned_json: Seq<u8>) -> bool {
    &&& env.protocol_version == crate::constants::DISCOVERY_PROTOCOL_VERSION
    &&& decode_hex_spec(env.certificate_der_hex@) is Some
    &&& decode_hex_spec(env.signature_hex@) is Some
    &&& parse_scheme_spec(env.signature_scheme@) is Some
    &&& signature_verdict(
        decode_hex_spec(env.certificate_der_hex@)->0,
        parse_scheme_spec(env.signature_scheme@)->0,
        unsigned_json,
        decode_hex_spec(env.signature_hex@)->0,
    ) is None
    &&& env.message.fingerprint_of() == fingerprint_spec(decode_hex_spec(env.certificate_der_hex@)->0)
}

/// The message of an envelope that checks out, else `None`.
pub fn accept_envelope(envelope: DiscoveryEnvelope, unsigned_json: &[u8]) -> (r: Option<DiscoveryMessage>)
    ensures
        r is Some <==> envelope_accepted(envelope, unsigned_json@),
        r matches Some(m) ==> m == envelope.message,
{
    if envelope.protocol_version != crate::constants::DISCOVERY_PROTOCOL_VERSION {
        return None;
    }
    let certificate_der = match decode_hex(envelope.certificate_der_hex.as_str()) {
        Some(c) => c,
        None => return None,
    };
    let signature = match decode_hex(envelope.signature_hex.as_str()) {
        Some(s) => s,
        None => return None,
    };
    let scheme = match MessageSignatureScheme::parse(envelope.signature_scheme.as_str()) {
        Some(s) => s,
        None => return None,
    };
    match verify_detached_message_signature(certificate_der.as_slice(), scheme, unsigned_json, signature.as_slice()) {
        Ok(()) => {},
        Err(_) => return None,
    }
    let fp = certificate_fingerprint(certificate_der.as_slice());
    if !str_eq(message_fingerprint(&envelope.message), fp.as_str()) {
        return None;
    }
    Some(envelope.message)
}

/// A discovery message from another device, with where it came from.
#[derive(Debug)]
pub enum ReceivedDiscoveryMessage {
    Probe { source: SocketAddress, device_id: String, fingerprint: String },
    Announce(DiscoveredPeer),
    TrustRequest { source: SocketAddress, request_id: u128, peer: DiscoveredPeer },
    TrustDecision { request_id: u128, peer: DiscoveredPeer, accepted: bool },
}

/// The peer record a message describes, seen from `source` at `now`.
pub open spec fn peer_from(
    device_id: Seq<char>,
    device_name: Seq<char>,
    listen_port: u16,
    fingerprint: Seq<char>,
    source: SocketAddress,
    now: i128,
) -> PeerView {
    PeerView {
        device_id,
        device_name,
        host: source.ip@,
        address: source.ip@,
        port: listen_port,
        fingerprint,
        last_seen: now,
    }
}

/// How a verified message is received: messages that claim this device's id
/// or fingerprint are dropped; the others become events, peers seen at
/// `now` from the source's address.
pub open spec fn classify_spec(
    message: DiscoveryMessage,
    source: SocketAddress,
    self_device_id: Seq<char>,
    self_fingerprint: Seq<char>,
    now: i128,
    r: Option<ReceivedDiscoveryMessage>,
) -> bool {
    if message.device_id_of() == self_device_id || message.fingerprint_of() == self_fingerprint {
        r is None
    } else {
        match message {
            DiscoveryMessage::Probe { device_id, fingerprint } => r matches Some(
                ReceivedDiscoveryMessage::Probe { source: s, device_id: d, fingerprint: f },
            ) && s == source && d == device_id && f == fingerprint,
            DiscoveryMessage::Announce { device_id, device_name, listen_port, fingerprint } => r matches Some(
                ReceivedDiscoveryMessage::Announce(p),
            ) && p@ == peer_from(device_id@, device_name@, listen_port, fingerprint@, source, now),
            DiscoveryMessage::TrustRequest { request_id, device_id, device_name, listen_port, fingerprint } =>
                r matches Some(ReceivedDiscoveryMessage::TrustRequest { source: s, request_id: rid, peer: p })
                && s == source && rid == request_id && p@ == peer_from(
                device_id@,
                device_name@,
                listen_port,
                fingerprint@,
                source,
                now,
            ),
            DiscoveryMessage::TrustDecision { request_id, accepted, device_id, device_name, listen_port, fingerprint } =>
                r matches Some(ReceivedDiscoveryMessage::TrustDecision { request_id: rid, peer: p, accepted: a })
                && rid == request_id && a == accepted && p@ == peer_from(
                device_id@,
                device_name@,
                listen_port,
                fingerprint@,
                source,
                now,
            ),
        }
    }
}

/// What a received message becomes: nothing exactly when it claims this
/// device's id or fingerprint; otherwise an event of the same kind whose
/// peer is the sender as it described itself, reached at the source's
/// address on the transfer port it announced (`listen_port`, never the
/// datagram's port), seen at `now`.
pub proof fn lemma_classified_peer(
    message: DiscoveryMessage,
    source: SocketAddress,
    self_device_id: Seq<char>,
    self_fingerprint: Seq<char>,
    now: i128,
    r: Option<ReceivedDiscoveryMessage>,
)
    requires
        classify_spec(message, source, self_device_id, self_fingerprint, now, r),
    ensures
        r is None <==> (message.device_id_of() == self_device_id || message.fingerprint_of() == self_fingerprint),
        r matches Some(ReceivedDiscoveryMessage::Announce(p)) ==> (message matches DiscoveryMessage::Announce {
            device_id,
            device_name,
            listen_port,
            fingerprint,
        } && p.port == listen_port && p.address@ == source.ip@ && p.host@ == source.ip@ && p.device_id@ == device_id@
            && p.device_name@ == device_name@ && p.fingerprint@ == fingerprint@ && p.last_seen == now),
        r matches Some(ReceivedDiscoveryMessage::TrustRequest { source: s, request_id: rid, peer: p }) ==> (
        message matches DiscoveryMessage::TrustRequest { request_id, device_id, device_name, listen_port, fingerprint }
            && s == source && rid == request_id && p.port == listen_port && p.address@ == source.ip@
            && p.device_id@ == device_id@ && p.device_name@ == device_name@ && p.fingerprint@ == fingerprint@
            && p.last_seen == now),
        r matches Some(ReceivedDiscoveryMessage::TrustDecision { request_id: rid, peer: p, accepted: a }) ==> (
        message matches DiscoveryMessage::TrustDecision { request_id, accepted, device_id, device_name, listen_port, fingerprint }
            && rid == request_id && a == accepted && p.port == listen_port && p.address@ == source.ip@
            && p.device_id@ == device_id@ && p.device_name@ == device_name@ && p.fingerprint@ == fingerprint@
            && p.last_seen == now),
{
}

/// Turns a verified message from `source` into a received event.
pub fn classify_discovery_message(
    message: DiscoveryMessage,
    source: SocketAddress,
    self_device_id: &str,
    self_fingerprint: &str,
    now: i128,
) -> (r: Option<ReceivedDiscoveryMessage>)
    ensures
        classify_spec(message, source, self_device_id@, self_fingerprint@, now, r),
{
    if str_eq(message_device_id(&message), self_device_id) || str_eq(
        message_fingerprint(&message),
        self_fingerprint,
    ) {
        return None;
    }
    match message {
        DiscoveryMessage::Probe { device_id, fingerprint } => Some(
            ReceivedDiscoveryMessage::Probe { source, device_id, fingerprint },
        ),
        DiscoveryMessage::Announce { device_id, device_name, listen_port, fingerprint } => Some(
            ReceivedDiscoveryMessage::Announce(
                DiscoveredPeer {
                    device_id,
                    device_name,
                    host: source.ip.clone(),
                    address: source.ip.clone(),
                    port: listen_port,
                    fingerprint,
                    last_seen: now,
                },
            ),
        ),
        DiscoveryMessage::TrustRequest { request_id, device_id, device_name, listen_port, fingerprint } => {
            let peer = DiscoveredPeer {
                device_id,
                device_name,
                host: source.ip.clone(),
                address: source.ip.clone(),
                port: listen_port,
                fingerprint,
                last_seen: now,
            };
            Some(ReceivedDiscoveryMessage::TrustRequest { source, request_id, peer })
        },
        DiscoveryMessage::TrustDecision { request_id, accepted, device_id, device_name, listen_port, fingerprint } => {
            let peer = DiscoveredPeer {
                device_id,
                device_name,
                host: source.ip.clone(),
                address: source.ip.clone(),
                port: listen_port,
                fingerprint,
                last_seen: now,
            };
            Some(ReceivedDiscoveryMessage::TrustDecision { request_id, peer, accepted })
        },
    }
}

// ---------------------------------------------------------------------------
// The table of discovered peers, keyed by device id.

/// No two peers share a device id.
pub open spec fn unique_peer_ids(t: Seq<PeerView>) -> bool {
    forall|i: int, j: int| 0 <= i < j < t.len() ==> t[i].device_id != t[j].device_id
}

/// An entry made stale by an announcement: same non-empty fingerprint, other id.
pub open spec fn stale_for(p: PeerView, peer: PeerView) -> bool {
    peer.fingerprint.len() > 0 && p.fingerprint == peer.fingerprint && p.device_id != peer.device_id
}

/// Position of the entry with the device id, or the length.
pub open spec fn id_pos(t: Seq<PeerView>, id: Seq<char>) -> nat
    decreases t.len(),
{
    if t.len() == 0 {
        0
    } else if t[0].device_id == id {
        0
    } else {
        1 + id_pos(t.drop_first(), id)
    }
}

pub proof fn lemma_id_pos(t: Seq<PeerView>, id: Seq<char>, i: int)
    requires
        0 <= i <= t.len(),
        forall|j: int| 0 <= j < i ==> #[trigger] t[j].device_id != id,
        i == t.len() || t[i].device_id == id,
    ensures
        id_pos(t, id) == i,
    decreases t.len(),
{
    if t.len() > 0 && i > 0 {
        assert forall|j: int| 0 <= j < i - 1 implies #[trigger] t.drop_first()[j].device_id != id by {
            assert(t.drop_first()[j] == t[j + 1]);
        }
        lemma_id_pos(t.drop_first(), id, i - 1);
    }
}

pub proof fn lemma_id_pos_found(t: Seq<PeerView>, id: Seq<char>)
    ensures
        id_pos(t, id) <= t.len(),
        id_pos(t, id) < t.len() ==> t[id_pos(t, id) as int].device_id == id,
        forall|j: int| 0 <= j < id_pos(t, id) ==> #[trigger] t[j].device_id != id,
    decreases t.len(),
{
    if t.len() > 0 && t[0].device_id != id {
        lemma_id_pos_found(t.drop_first(), id);
        assert forall|j: int| 0 <= j < id_pos(t, id) implies #[trigger] t[j].device_id != id by {
            if j > 0 {
                assert(t[j] == t.drop_first()[j - 1]);
            }
        }
        if id_pos(t, id) < t.len() {
            assert(t[id_pos(t, id) as int] == t.drop_first()[id_pos(t.drop_first(), id) as int]);
        }
    }
}

/// The table after one announced peer: entries it makes stale are dropped,
/// then the peer replaces the entry with its id or is added.
pub open spec fn merge_one_spec(t: Seq<PeerView>, peer: PeerView) -> Seq<PeerView> {
    let kept = t.filter(|p: PeerView| !stale_for(p, peer));
    let i = id_pos(kept, peer.device_id);
    if i < kept.len() {
        kept.update(i as int, peer)
    } else {
        kept.push(peer)
    }
}

/// A peer record with a new last-seen time.
pub open spec fn seen_at(p: PeerView, now: i128) -> PeerView {
    PeerView { last_seen: now, ..p }
}

/// The table after a batch of announced peers, each seen at `now`.
pub open spec fn merge_all_spec(t: Seq<PeerView>, peers: Seq<PeerView>, now: i128) -> Seq<PeerView>
    decreases peers.len(),
{
    if peers.len() == 0 {
        t
    } else {
        merge_one_spec(merge_all_spec(t, peers.drop_last(), now), seen_at(peers.last(), now))
    }
}

pub proof fn lemma_merge_one_unique(t: Seq<PeerView>, peer: PeerView)
    requires
        unique_peer_ids(t),
    ensures
        unique_peer_ids(merge_one_spec(t, peer)),
{
    let pred = |p: PeerView| !stale_for(p, peer);
    let kept = t.filter(pred);
    lemma_filter_unique(t, pred);
    lemma_id_pos_found(kept, peer.device_id);
}

pub proof fn lemma_filter_unique(t: Seq<PeerView>, pred: spec_fn(PeerView) -> bool)
    requires
        unique_peer_ids(t),
    ensures
        unique_peer_ids(t.filter(pred)),
        forall|x: PeerView| t.filter(pred).contains(x) ==> t.contains(x),
    decreases t.len(),
{
    reveal(Seq::filter);
    if t.len() > 0 {
        let d = t.drop_last();
        assert(unique_peer_ids(d));
        lemma_filter_unique(d, pred);
        let f = d.filter(pred);
        let last = t.last();
        assert forall|x: PeerView| f.contains(x) implies t.contains(x) && x.device_id != last.device_id by {
            assert(d.contains(x));
            let k = choose|k: int| 0 <= k < d.len() && d[k] == x;
            assert(t[k] == x);
            assert(t[t.len() - 1] == last);
        }
        if pred(last) {
            let g = f.push(last);
            assert(t.filter(pred) == g);
            assert forall|i: int, j: int| 0 <= i < j < g.len() implies g[i].device_id != g[j].device_id by {
                if j == f.len() {
                    assert(g[i] == f[i]);
                    assert(f.contains(f[i]));
                } else {
                    assert(g[i] == f[i]);
                    assert(g[j] == f[j]);
                }
            }
            assert forall|x: PeerView| g.contains(x) implies t.contains(x) by {
                let k = choose|k: int| 0 <= k < g.len() && g[k] == x;
                if k < f.len() {
                    assert(f[k] == x);
                    assert(f.contains(x));
                } else {
                    assert(t[t.len() - 1] == x);
                }
            }
        } else {
            assert(t.filter(pred) == f);
        }
    }
}

/// After an announcement with a fingerprint, the announced peer is the only
/// entry with that fingerprint, and the only one with its device id.
pub proof fn lemma_merge_fingerprint_unique(t: Seq<PeerView>, peer: PeerView)
    requires
        unique_peer_ids(t),
        peer.fingerprint.len() > 0,
    ensures
        unique_peer_ids(merge_one_spec(t, peer)),
        merge_one_spec(t, peer).contains(peer),
        forall|i: int|
            0 <= i < merge_one_spec(t, peer).len() && (#[trigger] merge_one_spec(t, peer)[i]).fingerprint
                == peer.fingerprint ==> merge_one_spec(t, peer)[i] == peer,
{
    let pred = |p: PeerView| !stale_for(p, peer);
    let kept = t.filter(pred);
    lemma_filter_unique(t, pred);
    lemma_merge_one_unique(t, peer);
    lemma_id_pos_found(kept, peer.device_id);
    let m = merge_one_spec(t, peer);
    let i = id_pos(kept, peer.device_id);
    if i < kept.len() {
        assert(m[i as int] == peer);
    } else {
        assert(m[kept.len() as int] == peer);
    }
    assert forall|j: int| 0 <= j < m.len() && (#[trigger] m[j]).fingerprint == peer.fingerprint implies m[j]
        == peer by {
        if !(i < kept.len() && j == i) && !(i >= kept.len() && j == kept.len()) {
            assert(kept[j] == m[j]);
            t.lemma_filter_pred(pred, j);
            assert(!stale_for(kept[j], peer));
            assert(kept[j].device_id == peer.device_id);
            if i < kept.len() {
                assert(kept[i as int].device_id == peer.device_id);
            }
        }
    }
}

fn filter_not_stale(table: &Vec<DiscoveredPeer>, peer: &DiscoveredPeer) -> (r: Vec<DiscoveredPeer>)
    ensures
        peer_views(r@) == peer_views(table@).filter(|p: PeerView| !stale_for(p, peer@)),
{
    let ghost pred = |p: PeerView| !stale_for(p, peer@);
    let ghost tv = peer_views(table@);
    let mut out: Vec<DiscoveredPeer> = Vec::new();
    let mut i: usize = 0;
    let has_fp = !peer.fingerprint.as_str().is_empty();
    while i < table.len()
        invariant
            i <= table@.len(),
            tv == peer_views(table@),
            has_fp == (peer.fingerprint@.len() > 0),
            pred == (|p: PeerView| !stale_for(p, peer@)),
            peer_views(out@) == tv.take(i as int).filter(pred),
        decreases table@.len() - i,
    {
        proof {
            reveal(Seq::filter);
            assert(tv.take(i + 1).drop_last() =~= tv.take(i as int));
            assert(tv.take(i + 1).last() == table@[i as int]@);
        }
        let e = &table[i];
        let stale = has_fp && str_eq(e.fingerprint.as_str(), peer.fingerprint.as_str()) && !str_eq(
            e.device_id.as_str(),
            peer.device_id.as_str(),
        );
        if !stale {
            out.push(e.clone());
            proof {
                assert(peer_views(out@) =~= peer_views(out@.drop_last()).push(e@));
            }
        }
        i = i + 1;
    }
    proof {
        assert(tv.take(i as int) =~= tv);
    }
    out
}

fn find_peer(table: &Vec<DiscoveredPeer>, id: &str) -> (r: usize)
    ensures
        r == id_pos(peer_views(table@), id@),
{
    let ghost tv = peer_views(table@);
    let mut i: usize = 0;
    while i < table.len()
        invariant
            i <= table@.len(),
            tv == peer_views(table@),
            forall|j: int| 0 <= j < i ==> #[trigger] tv[j].device_id != id@,
        decreases table@.len() - i,
    {
        if str_eq(table[i].device_id.as_str(), id) {
            proof {
                lemma_id_pos(tv, id@, i as int);
            }
            return i;
        }
        i = i + 1;
    }
    proof {
        lemma_id_pos(tv, id@, i as int);
    }
    i
}

/// Records one announced peer in the table.
pub fn merge_announced_peer(discovered: &mut Vec<DiscoveredPeer>, peer: DiscoveredPeer)
    ensures
        peer_views(final(discovered)@) == merge_one_spec(peer_views(old(discovered)@), peer@),
{
    let mut kept = filter_not_stale(discovered, &peer);
    let pos = find_peer(&kept, peer.device_id.as_str());
    let ghost kv = peer_views(kept@);
    if pos < kept.len() {
        kept.set(pos, peer);
        proof {
            assert(peer_views(kept@) =~= kv.update(pos as int, peer@));
        }
    } else {
        kept.push(peer);
        proof {
            assert(peer_views(kept@) =~= kv.push(peer@));
        }
    }
    *discovered = kept;
}

/// Records announced peers, each as seen at `now`.
pub fn merge_announced_peers(discovered: &mut Vec<DiscoveredPeer>, peers: Vec<DiscoveredPeer>, now: i128)
    ensures
        peer_views(final(discovered)@) == merge_all_spec(peer_views(old(discovered)@), peer_views(peers@), now),
{
    let ghost start = peer_views(discovered@);
    let ghost pv = peer_views(peers@);
    let mut i: usize = 0;
    while i < peers.len()
        invariant
            i <= peers@.len(),
            pv == peer_views(peers@),
            peer_views(discovered@) == merge_all_spec(start, pv.take(i as int), now),
        decreases peers@.len() - i,
    {
        let mut p = peers[i].clone();
        p.last_seen = now;
        proof {
            assert(pv.take(i + 1).drop_last() =~= pv.take(i as int));
            assert(p@ == seen_at(pv.take(i + 1).last(), now));
        }
        merge_announced_peer(discovered, p);
        i = i + 1;
    }
    proof {
        assert(pv.take(i as int) =~= pv);
    }
}

/// Whole seconds of a nanosecond time, rounded down (the Unix timestamp of
/// that instant).
pub open spec fn whole_seconds(nanos: int) -> int {
    nanos / 1_000_000_000
}

/// Whole seconds of a Unix time in nanoseconds (`OffsetDateTime::unix_timestamp`).
pub fn unix_seconds(nanos: i128) -> (r: i128)
    ensures
        r == whole_seconds(nanos as int),
{
    if nanos >= 0 {
        nanos / 1_000_000_000
    } else {
        let q: i128 = (-(nanos + 1)) / 1_000_000_000;
        proof {
            let n: int = nanos as int;
            let m: int = -(n + 1);
            assert(m == q * 1_000_000_000 + m % 1_000_000_000);
            assert(n == (-q - 1) * 1_000_000_000 + (1_000_000_000 - 1 - m % 1_000_000_000));
            vstd::arithmetic::div_mod::lemma_fundamental_div_mod_converse(
                n, 1_000_000_000, -q - 1, 1_000_000_000 - 1 - m % 1_000_000_000);
        }
        -q - 1
    }
}

/// A peer is still online when its last announcement is at most the grace
/// period (in whole seconds) before `now`.
pub open spec fn still_online(p: PeerView, now: i128) -> bool {
    whole_seconds(now as int) - whole_seconds(p.last_seen as int) <= crate::constants::DISCOVERY_OFFLINE_GRACE_SECS
}

/// Drops the peers not heard from within the grace period.
pub fn prune_stale_discovered_peers(discovered: &mut Vec<DiscoveredPeer>, now: i128)
    ensures
        peer_views(final(discovered)@) == peer_views(old(discovered)@).filter(|p: PeerView| still_online(p, now)),
{
    let ghost pred = |p: PeerView| still_online(p, now);
    let ghost tv = peer_views(discovered@);
    let now_s = unix_seconds(now);
    let mut out: Vec<DiscoveredPeer> = Vec::new();
    let mut i: usize = 0;
    while i < discovered.len()
        invariant
            i <= discovered@.len(),
            tv == peer_views(discovered@),
            now_s == whole_seconds(now as int),
            pred == (|p: PeerView| still_online(p, now)),
            peer_views(out@) == tv.take(i as int).filter(pred),
        decreases discovered@.len() - i,
    {
        proof {
            reveal(Seq::filter);
            assert(tv.take(i + 1).drop_last() =~= tv.take(i as int));
            assert(tv.take(i + 1).last() == discovered@[i as int]@);
        }
        let seen_s = unix_seconds(discovered[i].last_seen);
        if now_s - seen_s <= crate::constants::DISCOVERY_OFFLINE_GRACE_SECS {
            out.push(discovered[i].clone());
            proof {
                assert(peer_views(out@) =~= peer_views(out@.drop_last()).push(discovered@[i as int]@));
            }
        }
        i = i + 1;
    }
    proof {
        assert(tv.take(i as int) =~= tv);
    }
    *discovered = out;
}

/// Order of peers in lists shown to the user: by name, then device id.
pub open spec fn peer_le(a: PeerView, b: PeerView) -> bool {
    seq_lt(a.device_name, b.device_name) || (a.device_name == b.device_name && seq_le(a.device_id, b.device_id))
}

impl TotalPreorder for DiscoveredPeer {
    open spec fn le(a: Self, b: Self) -> bool {
        peer_le(a@, b@)
    }

    proof fn lemma_total(a: Self, b: Self) {
        lemma_seq_lt_total(a.device_name@, b.device_name@);
        lemma_seq_lt_total(a.device_id@, b.device_id@);
    }

    proof fn lemma_trans(a: Self, b: Self, c: Self) {
        if seq_lt(a.device_name@, b.device_name@) && seq_lt(b.device_name@, c.device_name@) {
            lemma_seq_lt_trans(a.device_name@, b.device_name@, c.device_name@);
        }
        if seq_lt(a.device_id@, b.device_id@) && seq_lt(b.device_id@, c.device_id@) {
            lemma_seq_lt_trans(a.device_id@, b.device_id@, c.device_id@);
        }
    }

    fn le_exec(&self, other: &Self) -> (r: bool) {
        match crate::text::compare_str(self.device_name.as_str(), other.device_name.as_str()) {
            LexOrder::Less => true,
            LexOrder::Greater => false,
            LexOrder::Equal => match crate::text::compare_str(self.device_id.as_str(), other.device_id.as_str()) {
                LexOrder::Greater => false,
                _ => true,
            },
        }
    }
}

/// The peers ordered by name and device id.
pub fn sorted_discovered_peers(discovered: &Vec<DiscoveredPeer>) -> (r: Vec<DiscoveredPeer>)
    ensures
        forall|i: int, j: int| 0 <= i < j < r@.len() ==> peer_le(#[trigger] r@[i]@, #[trigger] r@[j]@),
        peer_views(r@).to_multiset() == peer_views(discovered@).to_multiset(),
{
    let mut copy: Vec<DiscoveredPeer> = Vec::new();
    let mut i: usize = 0;
    while i < discovered.len()
        invariant
            i <= discovered@.len(),
            copy@ == discovered@.take(i as int),
        decreases discovered@.len() - i,
    {
        copy.push(discovered[i].clone());
        proof {
            assert(discovered@.take(i + 1) =~= discovered@.take(i as int).push(discovered@[i as int]));
        }
        i = i + 1;
    }
    proof {
        assert(discovered@.take(i as int) =~= discovered@);
    }
    let ghost unsorted = copy@;
    let r = sort_vec(copy);
    proof {
        lemma_multiset_map(r@, unsorted, |p: DiscoveredPeer| p@);
        assert forall|i: int, j: int| 0 <= i < j < r@.len() implies peer_le(#[trigger] r@[i]@, #[trigger] r@[j]@) by {
            assert(DiscoveredPeer::le(r@[i], r@[j]));
        }
    }
    r
}

} // verus!
