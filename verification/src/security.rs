//! Device identity, certificate fingerprints and detached message signatures.

use vstd::prelude::*;

use crate::bytes::copy_range;
use crate::error::{crypto_error, AppError, AppResult};
use crate::discovery::{encode_hex, hex_spec};
use crate::text::{str_eq, trim};

verus! {

/// The SHA-256 digest of `data`, as the sha2 crate computes it.
pub uninterp spec fn sha256_of(data: Seq<u8>) -> Seq<u8>;

/// sha2's `Sha256::digest`: the 32-byte SHA-256 digest of the input.
#[verifier::external_body]
pub(crate) fn sha256(data: &[u8]) -> (r: Vec<u8>)
    ensures
        r@ == sha256_of(data@),
        r@.len() == 32,
{
    <sha2::Sha256 as sha2::Digest>::digest(data).to_vec()
}

/// The fingerprint of a certificate: its SHA-256 digest in lower-case hex.
pub open spec fn fingerprint_spec(cert: Seq<u8>) -> Seq<char> {
    hex_spec(sha256_of(cert))
}

/// Fingerprint of a DER certificate.
pub fn certificate_fingerprint(cert: &[u8]) -> (r: String)
    ensures
        r@ == fingerprint_spec(cert@),
{
    let digest = sha256(cert);
    encode_hex(digest.as_slice())
}

/// Whether a certificate's fingerprint is one of the trusted ones.
pub fn is_trusted_certificate(trusted: &Vec<String>, cert: &[u8]) -> (r: bool)
    ensures
        r == exists|i: int| 0 <= i < trusted@.len() && trusted@[i]@ == fingerprint_spec(cert@),
{
    let fp = certificate_fingerprint(cert);
    let mut i: usize = 0;
    while i < trusted.len()
        invariant
            i <= trusted@.len(),
            fp@ == fingerprint_spec(cert@),
            forall|k: int| 0 <= k < i ==> trusted@[k]@ != fingerprint_spec(cert@),
        decreases trusted@.len() - i,
    {
        if str_eq(trusted[i].as_str(), fp.as_str()) {
            return true;
        }
        i = i + 1;
    }
    false
}

/// The device's transport identity.
#[derive(Debug)]
pub struct DeviceIdentity {
    pub certificate_der: Vec<u8>,
    pub private_key_der: Vec<u8>,
    pub fingerprint: String,
}

impl Clone for DeviceIdentity {
    fn clone(&self) -> (r: Self)
        ensures
            r.certificate_der@ == self.certificate_der@,
            r.private_key_der@ == self.private_key_der@,
            r.fingerprint@ == self.fingerprint@,
    {
        let certificate_der = copy_range(self.certificate_der.as_slice(), 0, self.certificate_der.len());
        let private_key_der = copy_range(self.private_key_der.as_slice(), 0, self.private_key_der.len());
        proof {
            assert(certificate_der@ =~= self.certificate_der@);
            assert(private_key_der@ =~= self.private_key_der@);
        }
        DeviceIdentity { certificate_der, private_key_der, fingerprint: self.fingerprint.clone() }
    }
}

impl DeviceIdentity {
    /// An identity over a certificate and key, with the certificate's fingerprint.
    pub fn from_parts(certificate_der: Vec<u8>, private_key_der: Vec<u8>) -> (r: Self)
        ensures
            r.certificate_der@ == certificate_der@,
            r.private_key_der@ == private_key_der@,
            r.fingerprint@ == fingerprint_spec(certificate_der@),
    {
        let fingerprint = certificate_fingerprint(certificate_der.as_slice());
        DeviceIdentity { certificate_der, private_key_der, fingerprint }
    }
}

/// A freshly generated self-signed Ed25519 certificate for the given subject
/// names, and its private key in PKCS#8 DER: rcgen's `CertificateParams::new`,
/// `KeyPair::generate_for` with `PKCS_ED25519` and `self_signed`, then `der`
/// and `serialize_der`. The key is random, so nothing is stated of the
/// bytes; an error carries rcgen's message.
#[verifier::external_body]
fn generate_self_signed_ed25519(names: Vec<String>) -> (r: Result<(Vec<u8>, Vec<u8>), String>) {
    let params = match rcgen::CertificateParams::new(names) {
        Ok(p) => p,
        Err(e) => return Err(e.to_string()),
    };
    let key_pair = match rcgen::KeyPair::generate_for(&rcgen::PKCS_ED25519) {
        Ok(k) => k,
        Err(e) => return Err(e.to_string()),
    };
    match params.self_signed(&key_pair) {
        Ok(certified) => Ok((certified.der().to_vec(), key_pair.serialize_der())),
        Err(e) => Err(e.to_string()),
    }
}

/// The subject names of a device certificate: the service host name,
/// `localhost` and the device id.
pub open spec fn identity_names_spec(device_id: Seq<char>) -> Seq<Seq<char>> {
    seq!["cliplink.local"@, "localhost"@, device_id]
}

/// The subject names a device certificate is issued for.
pub fn identity_names(device_id: &str) -> (r: Vec<String>)
    ensures
        r@.map_values(|s: String| s@) == identity_names_spec(device_id@),
{
    let mut names: Vec<String> = Vec::new();
    names.push("cliplink.local".to_string());
    names.push("localhost".to_string());
    names.push(device_id.to_string());
    proof {
        assert(names@.map_values(|s: String| s@) =~= identity_names_spec(device_id@));
    }
    names
}

/// Generates a new identity for `device_id`, issuing a self-signed Ed25519
/// certificate for the names `identity_names` gives; its fingerprint is that
/// of its certificate.
pub fn generate_identity(device_id: &str) -> (r: AppResult<DeviceIdentity>)
    ensures
        r matches Ok(id) ==> id.fingerprint@ == fingerprint_spec(id.certificate_der@),
        r matches Err(e) ==> e is Crypto,
{
    let names = identity_names(device_id);
    match generate_self_signed_ed25519(names) {
        Ok((cert, key)) => Ok(DeviceIdentity::from_parts(cert, key)),
        Err(message) => Err(AppError::Crypto(message)),
    }
}

/// Signature algorithms a device key may use.
#[derive(Debug, Clone, Copy, PartialEq, Eq)]
pub enum MessageSignatureScheme {
    Ed25519,
    EcdsaP256Sha256Asn1,
    EcdsaP384Sha384Asn1,
}

/// The wire name of a scheme.
pub open spec fn scheme_name(s: MessageSignatureScheme) -> Seq<char> {
    match s {
        MessageSignatureScheme::Ed25519 => "ed25519"@,
        MessageSignatureScheme::EcdsaP256Sha256Asn1 => "ecdsa_p256_sha256_asn1"@,
        MessageSignatureScheme::EcdsaP384Sha384Asn1 => "ecdsa_p384_sha384_asn1"@,
    }
}

/// The scheme a wire name denotes, after trimming whitespace.
pub open spec fn parse_scheme_spec(value: Seq<char>) -> Option<MessageSignatureScheme> {
    let t = crate::text::trim_spec(value);
    if t == "ed25519"@ {
        Some(MessageSignatureScheme::Ed25519)
    } else if t == "ecdsa_p256_sha256_asn1"@ {
        Some(MessageSignatureScheme::EcdsaP256Sha256Asn1)
    } else if t == "ecdsa_p384_sha384_asn1"@ {
        Some(MessageSignatureScheme::EcdsaP384Sha384Asn1)
    } else {
        None
    }
}

impl MessageSignatureScheme {
    /// The wire name of the scheme.
    pub fn as_str(self) -> (r: &'static str)
        ensures
            r@ == scheme_name(self),
    {
        match self {
            MessageSignatureScheme::Ed25519 => "ed25519",
            MessageSignatureScheme::EcdsaP256Sha256Asn1 => "ecdsa_p256_sha256_asn1",
            MessageSignatureScheme::EcdsaP384Sha384Asn1 => "ecdsa_p384_sha384_asn1",
        }
    }

    /// Parses a wire name, ignoring surrounding whitespace.
    pub fn parse(value: &str) -> (r: Option<Self>)
        ensures
            r == parse_scheme_spec(value@),
    {
        let t = trim(value);
        if str_eq(t.as_str(), "ed25519") {
            Some(MessageSignatureScheme::Ed25519)
        } else if str_eq(t.as_str(), "ecdsa_p256_sha256_asn1") {
            Some(MessageSignatureScheme::EcdsaP256Sha256Asn1)
        } else if str_eq(t.as_str(), "ecdsa_p384_sha384_asn1") {
            Some(MessageSignatureScheme::EcdsaP384Sha384Asn1)
        } else {
            None
        }
    }
}

/// Parsing the wire name of a scheme gives the scheme back.
pub proof fn lemma_scheme_name_roundtrip(s: MessageSignatureScheme)
    ensures
        parse_scheme_spec(scheme_name(s)) == Some(s),
{
    reveal_strlit("ed25519");
    reveal_strlit("ecdsa_p256_sha256_asn1");
    reveal_strlit("ecdsa_p384_sha384_asn1");
    crate::text::lemma_trim_plain(scheme_name(s));
    let a = "ed25519"@;
    let b = "ecdsa_p256_sha256_asn1"@;
    let c = "ecdsa_p384_sha384_asn1"@;
    assert(a[1] != b[1]);
    assert(a[1] != c[1]);
    assert(b[7] != c[7]);
}

/// A signature over a message, with the signer's certificate.
#[derive(Debug)]
pub struct DetachedMessageSignature {
    pub certificate_der: Vec<u8>,
    pub scheme: MessageSignatureScheme,
    pub signature: Vec<u8>,
}

/// The Ed25519 signature ring computes for a PKCS#8 key and a message, or
/// `None` when the bytes are no Ed25519 PKCS#8 key.
pub uninterp spec fn ed25519_signed(key_pkcs8: Seq<u8>, message: Seq<u8>) -> Option<Seq<u8>>;

/// ring's `Ed25519KeyPair::from_pkcs8` followed by `sign`; Ed25519 signing
/// is deterministic, so the result is named.
#[verifier::external_body]
fn ed25519_sign(key_pkcs8: &[u8], message: &[u8]) -> (r: Option<Vec<u8>>)
    ensures
        match r {
            Some(s) => ed25519_signed(key_pkcs8@, message@) == Some(s@),
            None => ed25519_signed(key_pkcs8@, message@) is None,
        },
{
    match ring::signature::Ed25519KeyPair::from_pkcs8(key_pkcs8) {
        Ok(pair) => Some(pair.sign(message).as_ref().to_vec()),
        Err(_) => None,
    }
}

/// Whether ring's PKCS#8 parse of an ECDSA key (`key_pair_from_pkcs8`, the
/// first step of `EcdsaKeyPair::from_pkcs8`) accepts the bytes as a key for
/// the P-384 curve (`p384`) or the P-256 curve.
pub uninterp spec fn ecdsa_key_parses(p384: bool, key_pkcs8: Seq<u8>) -> bool;

/// How an ECDSA signing attempt ended.
pub enum EcdsaOutcome {
    KeyRejected,
    SignFailed,
    Signed(Vec<u8>),
}

/// ring's `EcdsaKeyPair::from_pkcs8` (ASN.1 signing for P-256 with SHA-256,
/// or P-384 with SHA-384) and `sign` with the system random generator. A key
/// that does not parse is rejected; a key that parses can still be rejected,
/// since ring also reports a failing random generator as a rejected key. The
/// signature is randomized, so nothing is stated of its bytes.
#[verifier::external_body]
fn ecdsa_sign(p384: bool, key_pkcs8: &[u8], message: &[u8]) -> (r: EcdsaOutcome)
    ensures
        !ecdsa_key_parses(p384, key_pkcs8@) ==> r is KeyRejected,
        !(r is KeyRejected) ==> ecdsa_key_parses(p384, key_pkcs8@),
{
    let alg = if p384 { &ring::signature::ECDSA_P384_SHA384_ASN1_SIGNING } else { &ring::signature::ECDSA_P256_SHA256_ASN1_SIGNING };
    let rng = ring::rand::SystemRandom::new();
    match ring::signature::EcdsaKeyPair::from_pkcs8(alg, key_pkcs8, &rng) {
        Err(_) => EcdsaOutcome::KeyRejected,
        Ok(pair) => match pair.sign(&rng, message) {
            Ok(sig) => EcdsaOutcome::Signed(sig.as_ref().to_vec()),
            Err(_) => EcdsaOutcome::SignFailed,
        },
    }
}

/// Signs a message with the identity's key, trying Ed25519, then ECDSA P-256,
/// then ECDSA P-384.
pub fn sign_detached_message(identity: &DeviceIdentity, message: &[u8]) -> (r: AppResult<
    DetachedMessageSignature,
>)
    ensures
        r matches Ok(sig) ==> sig.certificate_der@ == identity.certificate_der@,
        ed25519_signed(identity.private_key_der@, message@) matches Some(s) ==> (r matches Ok(
            sig,
        ) && sig.scheme == MessageSignatureScheme::Ed25519 && sig.signature@ == s),
        ed25519_signed(identity.private_key_der@, message@) is None ==> match r {
            Ok(sig) => (sig.scheme == MessageSignatureScheme::EcdsaP256Sha256Asn1 && ecdsa_key_parses(
                false,
                identity.private_key_der@,
            )) || (sig.scheme == MessageSignatureScheme::EcdsaP384Sha384Asn1 && ecdsa_key_parses(
                true,
                identity.private_key_der@,
            )),
            Err(e) => e.is_crypto("Failed to sign detached message."@) || e.is_crypto(
                "Unsupported device identity key algorithm for detached message signing."@,
            ),
        },
        ed25519_signed(identity.private_key_der@, message@) is None && !ecdsa_key_parses(
            false,
            identity.private_key_der@,
        ) && !ecdsa_key_parses(true, identity.private_key_der@) ==> (r matches Err(e) && e.is_crypto(
            "Unsupported device identity key algorithm for detached message signing."@,
        )),
{
    let key = identity.private_key_der.as_slice();
    let cert = copy_range(identity.certificate_der.as_slice(), 0, identity.certificate_der.len());
    proof {
        assert(cert@ =~= identity.certificate_der@);
    }
    if let Some(signature) = ed25519_sign(key, message) {
        return Ok(DetachedMessageSignature { certificate_der: cert, scheme: MessageSignatureScheme::Ed25519, signature });
    }
    match ecdsa_sign(false, key, message) {
        EcdsaOutcome::Signed(signature) => {
            return Ok(DetachedMessageSignature { certificate_der: cert, scheme: MessageSignatureScheme::EcdsaP256Sha256Asn1, signature });
        },
        EcdsaOutcome::SignFailed => {
            return Err(crypto_error("Failed to sign detached message."));
        },
        EcdsaOutcome::KeyRejected => {},
    }
    match ecdsa_sign(true, key, message) {
        EcdsaOutcome::Signed(signature) => Ok(DetachedMessageSignature { certificate_der: cert, scheme: MessageSignatureScheme::EcdsaP384Sha384Asn1, signature }),
        EcdsaOutcome::SignFailed => Err(crypto_error("Failed to sign detached message.")),
        EcdsaOutcome::KeyRejected => Err(crypto_error("Unsupported device identity key algorithm for detached message signing.")),
    }
}

/// What webpki answers when asked whether `signature` is a valid signature of
/// `message` under the key of the DER certificate with the given scheme: no
/// error, or the text of the error.
pub uninterp spec fn signature_verdict(
    certificate_der: Seq<u8>,
    scheme: MessageSignatureScheme,
    message: Seq<u8>,
    signature: Seq<u8>,
) -> Option<Seq<char>>;

/// webpki's `EndEntityCert::try_from` on the certificate, then
/// `verify_signature` with the scheme's ring algorithm; an error is rendered
/// with `to_string`. Both steps depend on their arguments alone.
#[verifier::external_body]
fn webpki_verify(
    certificate_der: &[u8],
    scheme: MessageSignatureScheme,
    message: &[u8],
    signature: &[u8],
) -> (r: Result<(), String>)
    ensures
        match r {
            Ok(()) => signature_verdict(certificate_der@, scheme, message@, signature@) is None,
            Err(m) => signature_verdict(certificate_der@, scheme, message@, signature@) == Some(m@),
        },
{
    let alg = match scheme {
        MessageSignatureScheme::Ed25519 => webpki::ring::ED25519,
        MessageSignatureScheme::EcdsaP256Sha256Asn1 => webpki::ring::ECDSA_P256_SHA256,
        MessageSignatureScheme::EcdsaP384Sha384Asn1 => webpki::ring::ECDSA_P384_SHA384,
    };
    let der = rustls::pki_types::CertificateDer::from(certificate_der.to_vec());
    match webpki::EndEntityCert::try_from(&der) {
        Ok(cert) => match cert.verify_signature(alg, message, signature) {
            Ok(()) => Ok(()),
            Err(e) => Err(e.to_string()),
        },
        Err(e) => Err(e.to_string()),
    }
}

/// Checks a detached signature against the certificate's key.
pub fn verify_detached_message_signature(
    certificate_der: &[u8],
    scheme: MessageSignatureScheme,
    message: &[u8],
    signature: &[u8],
) -> (r: AppResult<()>)
    ensures
        match signature_verdict(certificate_der@, scheme, message@, signature@) {
            None => r is Ok,
            Some(m) => r matches Err(e) && e.is_crypto(m),
        },
{
    match webpki_verify(certificate_der, scheme, message, signature) {
        Ok(()) => Ok(()),
        Err(m) => Err(AppError::Crypto(m)),
    }
}

} // verus!
