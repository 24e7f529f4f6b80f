//! The message signer: wraps RSA signing key material together with a
//! selector and a signing domain, and produces a signed copy of a message —
//! the original bytes under a signature header — or reports failure. A
//! failure never blocks acceptance: callers fall back to the unsigned
//! original.

use vstd::prelude::*;

use crate::text::{append_bytes, copy_bytes};

verus! {

use vstd::string::StringSliceAdditionalSpecFns;

#[verifier::external_type_specification]
#[verifier::external_body]
pub struct ExRsaPrivateKey(rsa::RsaPrivateKey);

#[verifier::external_type_specification]
#[verifier::external_body]
pub struct ExSignatureError(rsa::signature::Error);

/// Relies on rsa's pkcs1v15 signing: produces an RSA-SHA256 signature over
/// the message bytes, or reports the crate's error. Nothing is claimed of
/// the signature bytes: they depend on the opaque key material.
#[verifier::external_body]
fn rsa_sign(key: &rsa::RsaPrivateKey, message: &[u8]) -> (r: Result<
    Vec<u8>,
    rsa::signature::Error,
>) {
    let sk = rsa::pkcs1v15::SigningKey::<rsa::sha2::Sha256>::new(key.clone());
    match rsa::signature::Signer::try_sign(&sk, message) {
        Ok(sig) => Ok(rsa::signature::SignatureEncoding::to_vec(&sig)),
        Err(e) => Err(e),
    }
}

/// What base64 encoding with the standard alphabet returns for `data`: a
/// function of the input bytes alone.
pub uninterp spec fn b64_of(data: Seq<u8>) -> Seq<u8>;

/// Relies on base64's standard-alphabet engine: the encoding depends on the
/// input bytes alone.
#[verifier::external_body]
fn base64_encode(data: &[u8]) -> (r: Vec<u8>)
    ensures
        r@ == b64_of(data@),
{
    base64::Engine::encode(&base64::engine::general_purpose::STANDARD, data).into_bytes()
}

/// A signing failure; the message itself is never lost on it.
#[derive(Clone, Copy, PartialEq, Eq, Structural, Debug)]
pub enum SigningError {
    SignatureFailure,
}

/// A signed copy: a signature header naming the domain, the selector and the
/// base64 signature, followed by the original message unchanged.
pub open spec fn signed_message(domain: Seq<u8>, selector: Seq<u8>, sig_b64: Seq<u8>, raw: Seq<
    u8,
>) -> Seq<u8> {
    ("DKIM-Signature: v=1; a=rsa-sha256; d=").spec_bytes() + domain + ("; s=").spec_bytes()
        + selector + ("; b=").spec_bytes() + sig_b64 + ("\r\n").spec_bytes() + raw
}

/// Whether `msg` is a signed copy of `raw` under `domain` and `selector`,
/// for some signature.
pub open spec fn is_signed_form(msg: Seq<u8>, domain: Seq<u8>, selector: Seq<u8>, raw: Seq<
    u8,
>) -> bool {
    exists|sig: Seq<u8>| msg == signed_message(domain, selector, b64_of(sig), raw)
}

/// Law: the signing transformation keeps the original message intact as the
/// suffix of the signed copy.
pub proof fn lemma_signed_keeps_body(msg: Seq<u8>, domain: Seq<u8>, selector: Seq<u8>, raw: Seq<
    u8,
>)
    requires
        is_signed_form(msg, domain, selector, raw),
    ensures
        msg.len() >= raw.len(),
        msg.skip(msg.len() - raw.len()) == raw,
{
    let sig = choose|sig: Seq<u8>| msg == signed_message(domain, selector, b64_of(sig), raw);
    assert(msg.skip(msg.len() - raw.len()) =~= raw);
}

/// The header-plus-message assembly of a signed copy.
fn assemble_signed(domain: &[u8], selector: &[u8], sig_b64: &[u8], raw: &[u8]) -> (r: Vec<u8>)
    ensures
        r@ == signed_message(domain@, selector@, sig_b64@, raw@),
{
    let mut out: Vec<u8> = copy_bytes(("DKIM-Signature: v=1; a=rsa-sha256; d=").as_bytes());
    append_bytes(&mut out, domain);
    append_bytes(&mut out, ("; s=").as_bytes());
    append_bytes(&mut out, selector);
    append_bytes(&mut out, ("; b=").as_bytes());
    append_bytes(&mut out, sig_b64);
    append_bytes(&mut out, ("\r\n").as_bytes());
    append_bytes(&mut out, raw);
    proof {
        assert(out@ =~= signed_message(domain@, selector@, sig_b64@, raw@));
    }
    out
}

/// Signing key material: the private key, the selector and the signing
/// domain whose public record is published externally.
pub struct DkimConfig {
    private_key: rsa::RsaPrivateKey,
    selector: Vec<u8>,
    domain: Vec<u8>,
}

impl DkimConfig {
    pub closed spec fn spec_selector(&self) -> Seq<u8> {
        self.selector@
    }

    pub closed spec fn spec_domain(&self) -> Seq<u8> {
        self.domain@
    }

    /// Packages key material with its selector and domain.
    pub fn new(private_key: rsa::RsaPrivateKey, selector: &str, domain: &str) -> (r: Self)
        ensures
            r.spec_selector() == selector.spec_bytes(),
            r.spec_domain() == domain.spec_bytes(),
    {
        DkimConfig {
            private_key,
            selector: copy_bytes(selector.as_bytes()),
            domain: copy_bytes(domain.as_bytes()),
        }
    }

    /// A signed copy of `raw_email`, or a failure report. On success the
    /// result is the signature header followed by `raw_email` unchanged.
    pub fn sign_email(&self, raw_email: &[u8]) -> (r: Result<Vec<u8>, SigningError>)
        ensures
            r matches Ok(m) ==> is_signed_form(
                m@,
                self.spec_domain(),
                self.spec_selector(),
                raw_email@,
            ),
    {
        match rsa_sign(&self.private_key, raw_email) {
            Ok(sig) => {
                let b64 = base64_encode(sig.as_slice());
                let msg = assemble_signed(
                    self.domain.as_slice(),
                    self.selector.as_slice(),
                    b64.as_slice(),
                    raw_email,
                );
                proof {
                    assert(msg@ == signed_message(
                        self.spec_domain(),
                        self.spec_selector(),
                        b64_of(sig@),
                        raw_email@,
                    ));
                }
                Ok(msg)
            },
            Err(_) => Err(SigningError::SignatureFailure),
        }
    }
}

} // verus!
